//! Text helpers over `String`: bytes read as Latin-1 characters, and the
//! two `String` operations that the services need and vstd does not
//! specify.

use vstd::prelude::*;

verus! {

/// The characters that the bytes `b` stand for when each byte is read as
/// the character with the same code point.
pub open spec fn latin1(b: Seq<u8>) -> Seq<char> {
    b.map_values(|x: u8| x as char)
}

/// `String::push`: appends one character.
#[verifier::external_body]
pub(crate) fn push_char(s: &mut String, c: char)
    ensures
        final(s)@ == old(s)@.push(c),
{
    s.push(c)
}

/// Appends the bytes `b[from..to]` to `s`, each read as one character.
pub(crate) fn push_latin1(s: &mut String, b: &[u8], from: usize, to: usize)
    requires
        from <= to <= b@.len(),
    ensures
        final(s)@ == old(s)@ + latin1(b@.subrange(from as int, to as int)),
{
    let mut i = from;
    while i < to
        invariant
            from <= i <= to <= b@.len(),
            s@ == old(s)@ + latin1(b@.subrange(from as int, i as int)),
        decreases to - i,
    {
        push_char(s, b[i] as char);
        i = i + 1;
        assert(latin1(b@.subrange(from as int, i as int)) =~= latin1(
            b@.subrange(from as int, i - 1),
        ).push(b@[i - 1] as char));
    }
}


/// `c` has the Unicode `White_Space` property.
pub open spec fn spec_is_whitespace(c: char) -> bool {
    ||| ('\u{9}' <= c && c <= '\u{d}')
    ||| c == ' '
    ||| c == '\u{85}'
    ||| c == '\u{a0}'
    ||| c == '\u{1680}'
    ||| ('\u{2000}' <= c && c <= '\u{200a}')
    ||| c == '\u{2028}'
    ||| c == '\u{2029}'
    ||| c == '\u{202f}'
    ||| c == '\u{205f}'
    ||| c == '\u{3000}'
}

/// `s` without its leading whitespace.
pub open spec fn spec_trim_start(s: Seq<char>) -> Seq<char>
    decreases s.len(),
{
    if s.len() > 0 && spec_is_whitespace(s[0]) {
        spec_trim_start(s.drop_first())
    } else {
        s
    }
}

/// `s` without its trailing whitespace.
pub open spec fn spec_trim_end(s: Seq<char>) -> Seq<char>
    decreases s.len(),
{
    if s.len() > 0 && spec_is_whitespace(s.last()) {
        spec_trim_end(s.drop_last())
    } else {
        s
    }
}

/// `s` without its leading and trailing whitespace.
pub open spec fn spec_trim(s: Seq<char>) -> Seq<char> {
    spec_trim_end(spec_trim_start(s))
}

/// Trimming the start drops exactly the leading whitespace.
proof fn lemma_trim_start(s: Seq<char>) -> (a: int)
    ensures
        0 <= a <= s.len(),
        spec_trim_start(s) == s.skip(a),
        forall|i: int| 0 <= i < a ==> spec_is_whitespace(#[trigger] s[i]),
        a < s.len() ==> !spec_is_whitespace(s[a]),
    decreases s.len(),
{
    if s.len() > 0 && spec_is_whitespace(s[0]) {
        let a1 = lemma_trim_start(s.drop_first());
        assert(s.drop_first().skip(a1) =~= s.skip(a1 + 1));
        assert forall|i: int| 0 <= i < a1 + 1 implies spec_is_whitespace(#[trigger] s[i]) by {
            if i > 0 {
                assert(s[i] == s.drop_first()[i - 1]);
            }
        }
        a1 + 1
    } else {
        assert(s.skip(0) =~= s);
        0
    }
}

/// Trimming the end drops exactly the trailing whitespace.
proof fn lemma_trim_end(s: Seq<char>) -> (b: int)
    ensures
        0 <= b <= s.len(),
        spec_trim_end(s) == s.take(b),
        forall|i: int| b <= i < s.len() ==> spec_is_whitespace(#[trigger] s[i]),
        b > 0 ==> !spec_is_whitespace(s[b - 1]),
    decreases s.len(),
{
    if s.len() > 0 && spec_is_whitespace(s.last()) {
        let b1 = lemma_trim_end(s.drop_last());
        assert(s.drop_last().take(b1) =~= s.take(b1));
        assert forall|i: int| b1 <= i < s.len() implies spec_is_whitespace(#[trigger] s[i]) by {
            if i < s.len() - 1 {
                assert(s[i] == s.drop_last()[i]);
            }
        }
        if b1 > 0 {
            assert(s[b1 - 1] == s.drop_last()[b1 - 1]);
        }
        b1
    } else {
        assert(s.take(s.len() as int) =~= s);
        s.len() as int
    }
}

/// Trimming keeps one unbroken piece of the text, `s[a..b]`: everything
/// cut off before and after it is whitespace, and the piece neither starts
/// nor ends with whitespace.
pub proof fn lemma_trim(s: Seq<char>) -> (r: (int, int))
    ensures
        0 <= r.0 <= r.1 <= s.len(),
        spec_trim(s) == s.subrange(r.0, r.1),
        forall|i: int| 0 <= i < r.0 ==> spec_is_whitespace(#[trigger] s[i]),
        forall|i: int| r.1 <= i < s.len() ==> spec_is_whitespace(#[trigger] s[i]),
        spec_trim(s).len() > 0 ==> !spec_is_whitespace(spec_trim(s)[0]) && !spec_is_whitespace(
            spec_trim(s).last(),
        ),
{
    let a = lemma_trim_start(s);
    let t = s.skip(a);
    let b = lemma_trim_end(t);
    assert(t.take(b) =~= s.subrange(a, a + b));
    assert forall|i: int| a + b <= i < s.len() implies spec_is_whitespace(#[trigger] s[i]) by {
        assert(s[i] == t[i - a]);
    }
    if b > 0 {
        assert(spec_trim(s)[0] == t[0]);
        assert(spec_trim(s).last() == t[b - 1]);
    }
    (a, a + b)
}

/// `str::trim`: the slice of `s` without leading and trailing characters
/// that have the Unicode `White_Space` property, as its documentation
/// defines whitespace.
#[verifier::external_body]
pub(crate) fn trim<'a>(s: &'a str) -> (r: &'a str)
    ensures
        r@ == spec_trim(s@),
{
    s.trim()
}

} // verus!
