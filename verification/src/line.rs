//! Line framing for the chat: each message travels as one line ended by a
//! newline byte.

use crate::buffer::{buffer_pop_front, buffer_remaining, buffered};
use crate::text::{latin1, push_char, spec_trim, trim};
use bytes::BytesMut;
use vstd::prelude::*;

verus! {

/// The newline byte that ends a line.
pub const NEWLINE: u8 = 10;

/// The index of the first newline in `b`, or its length when it has none.
pub open spec fn first_newline(b: Seq<u8>) -> int
    decreases b.len(),
{
    if b.len() == 0 {
        0
    } else if b[0] == NEWLINE {
        0
    } else {
        1 + first_newline(b.drop_first())
    }
}

/// `first_newline` is the first index that holds a newline.
proof fn lemma_first_newline(b: Seq<u8>, i: int)
    requires
        0 <= i <= b.len(),
        forall|j: int| 0 <= j < i ==> b[j] != NEWLINE,
        i == b.len() || b[i] == NEWLINE,
    ensures
        first_newline(b) == i,
    decreases i,
{
    if i > 0 {
        lemma_first_newline(b.drop_first(), i - 1);
    }
}

/// What reading the bytes `b` does to a line reader that holds the partial
/// line `pending`: the line it completes, if any, the partial line it holds
/// afterwards, and the bytes it leaves unread.
pub open spec fn spec_read_line(pending: Seq<char>, b: Seq<u8>) -> (Option<Seq<char>>, Seq<char>, Seq<u8>) {
    let k = first_newline(b);
    if k < b.len() {
        (Some(spec_trim(pending + latin1(b.take(k)))), Seq::empty(), b.skip(k + 1))
    } else {
        (None, pending + latin1(b), Seq::empty())
    }
}

/// The text of one message as sent: the message and a newline.
pub fn frame_line(msg: &str) -> (r: String)
    ensures
        r@ == msg@ + "\n"@,
{
    let mut r = String::from_str(msg);
    r.append("\n");
    r
}

/// Collects bytes into lines.  Each byte stands for the character with the
/// same code point; a completed line is handed out without its leading and
/// trailing whitespace.
pub struct LineReader {
    pending: String,
}

impl View for LineReader {
    type V = Seq<char>;

    open spec fn view(&self) -> Seq<char> {
        self.spec_pending()
    }
}

impl LineReader {
    /// The partial line read so far.
    pub closed spec fn spec_pending(&self) -> Seq<char> {
        self.pending@
    }

    /// A reader with nothing read yet.
    pub fn new() -> (r: LineReader)
        ensures
            r@ == Seq::<char>::empty(),
    {
        LineReader { pending: String::new() }
    }

    /// Reads bytes off the front of `read_buf` up to and including the first
    /// newline, and returns the line that it completes; when `read_buf` holds
    /// no newline, reads all of it into the partial line and returns `None`.
    pub fn poll_line(&mut self, read_buf: &mut BytesMut) -> (r: Option<String>)
        ensures
            ({
                let (line, pending, rest) = spec_read_line(old(self)@, buffered(*old(read_buf)));
                &&& final(self)@ == pending
                &&& buffered(*final(read_buf)) == rest
                &&& match line {
                    Some(l) => r matches Some(s) && s@ == l,
                    None => r is None,
                }
            }),
    {
        let ghost s = buffered(*read_buf);
        let ghost start = self@;
        let ghost mut j: int = 0;
        loop
            invariant
                0 <= j <= s.len(),
                s == buffered(*old(read_buf)),
                start == old(self)@,
                buffered(*read_buf) == s.skip(j),
                self@ == start + latin1(s.take(j)),
                forall|i: int| 0 <= i < j ==> s[i] != NEWLINE,
            decreases s.len() - j,
        {
            if buffer_remaining(read_buf) == 0 {
                proof {
                    lemma_first_newline(s, j);
                    assert(s.take(j) =~= s);
                }
                return None;
            }
            let byte = buffer_pop_front(read_buf);
            if byte == NEWLINE {
                proof {
                    lemma_first_newline(s, j);
                    assert(s.skip(j).drop_first() =~= s.skip(j + 1));
                }
                let line = trim(self.pending.as_str()).to_owned();
                self.pending = String::new();
                return Some(line);
            }
            push_char(&mut self.pending, byte as char);
            proof {
                assert(s.skip(j).drop_first() =~= s.skip(j + 1));
                assert(latin1(s.take(j + 1)) =~= latin1(s.take(j)).push(s[j] as char));
                j = j + 1;
            }
        }
    }
}

/// A message without a newline, sent as one line and read by a reader with
/// nothing pending, comes out as one line: the message without its leading
/// and trailing whitespace.
pub proof fn lemma_frame_then_read(msg: Seq<u8>)
    requires
        forall|i: int| 0 <= i < msg.len() ==> msg[i] != NEWLINE,
    ensures
        spec_read_line(Seq::empty(), msg.push(NEWLINE)) == (
            Some(spec_trim(latin1(msg))),
            Seq::<char>::empty(),
            Seq::<u8>::empty(),
        ),
{
    let b = msg.push(NEWLINE);
    lemma_first_newline(b, msg.len() as int);
    assert(b.take(msg.len() as int) =~= msg);
    assert(Seq::<char>::empty() + latin1(msg) =~= latin1(msg));
    assert(b.skip(msg.len() + 1int) =~= Seq::<u8>::empty());
}


/// `first_newline` is at most the length, no byte before it is a newline,
/// and the byte there is one when it is within `b`.
proof fn lemma_first_newline_props(b: Seq<u8>)
    ensures
        0 <= first_newline(b) <= b.len(),
        forall|j: int| 0 <= j < first_newline(b) ==> b[j] != NEWLINE,
        first_newline(b) < b.len() ==> b[first_newline(b)] == NEWLINE,
    decreases b.len(),
{
    if b.len() > 0 && b[0] != NEWLINE {
        lemma_first_newline_props(b.drop_first());
        assert forall|j: int| 0 <= j < first_newline(b) implies b[j] != NEWLINE by {
            if j > 0 {
                assert(b[j] == b.drop_first()[j - 1]);
            }
        }
    }
}

/// A line read in two pieces is the line read in one: reading bytes that
/// hold no newline only adds them to the partial line, and reading the rest
/// afterwards gives the same line, partial line and unread bytes as reading
/// all the bytes at once.  The line handed out is the whole line trimmed
/// once, so whitespace between the pieces stays.
pub proof fn lemma_read_in_pieces(pending: Seq<char>, b1: Seq<u8>, b2: Seq<u8>)
    requires
        forall|i: int| 0 <= i < b1.len() ==> b1[i] != NEWLINE,
    ensures
        spec_read_line(pending, b1) == (
            None::<Seq<char>>,
            pending + latin1(b1),
            Seq::<u8>::empty(),
        ),
        spec_read_line(pending + latin1(b1), b2) == spec_read_line(pending, b1 + b2),
{
    lemma_first_newline(b1, b1.len() as int);
    assert(b1.take(b1.len() as int) =~= b1);
    lemma_first_newline_props(b2);
    let k2 = first_newline(b2);
    let b = b1 + b2;
    assert forall|j: int| 0 <= j < b1.len() + k2 implies b[j] != NEWLINE by {
        if j >= b1.len() {
            assert(b[j] == b2[j - b1.len()]);
        }
    }
    if k2 < b2.len() {
        assert(b[b1.len() + k2] == b2[k2]);
    }
    lemma_first_newline(b, b1.len() + k2);
    if k2 < b2.len() {
        assert(latin1(b.take(b1.len() + k2)) =~= latin1(b1) + latin1(b2.take(k2)));
        assert(pending + latin1(b1) + latin1(b2.take(k2)) =~= pending + (latin1(b1) + latin1(
            b2.take(k2),
        )));
        assert(b.skip(b1.len() + k2 + 1) =~= b2.skip(k2 + 1));
    } else {
        assert(latin1(b) =~= latin1(b1) + latin1(b2));
        assert(pending + latin1(b1) + latin1(b2) =~= pending + (latin1(b1) + latin1(b2)));
    }
}

} // verus!
