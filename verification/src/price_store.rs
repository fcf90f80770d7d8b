//! The price store: 9-byte binary messages that insert timestamped prices
//! or ask for the mean price over a time range, answered with a 4-byte
//! big-endian integer.

use crate::binary_search::{find_bounds_index, find_insert_index, sorted};
use crate::buffer::{buffer_len, buffer_take_front, buffered};
use bytes::BytesMut;
use vstd::prelude::*;

verus! {

/// The length in bytes of one message.
pub const MESSAGE_LEN: usize = 9;

/// What a message asks for, as given by its first byte.
#[derive(Clone, Copy, Debug, PartialEq, Eq, Structural)]
pub enum MessageType {
    Insert,
    Query,
}

/// Why a message could not be read.
#[derive(Clone, Copy, Debug, PartialEq, Eq, Structural)]
pub enum MessageError {
    /// Fewer than `MESSAGE_LEN` bytes were given.
    TooShort,
    /// The first byte is neither `b'I'` nor `b'Q'`.
    UnknownType,
}

/// One decoded message: an insert carries `(timestamp, price)`, a query
/// carries `(mintime, maxtime)`.
#[derive(Clone, Copy, Debug, PartialEq, Eq, Structural)]
pub struct Message {
    pub type_: MessageType,
    pub first: i32,
    pub second: i32,
}

/// One stored price.
#[derive(Clone, Copy, Debug, PartialEq, Eq, Structural)]
pub struct PriceEntry {
    pub timestamp: i32,
    pub price: i32,
}

/// The message type that a first byte stands for.
pub open spec fn spec_message_type(byte: u8) -> Option<MessageType> {
    if byte == 73 {
        Some(MessageType::Insert)
    } else if byte == 81 {
        Some(MessageType::Query)
    } else {
        None
    }
}

/// The unsigned value of four bytes read in big-endian order.
pub open spec fn be_u32_value(b0: u8, b1: u8, b2: u8, b3: u8) -> int {
    b0 * 16777216 + b1 * 65536 + b2 * 256 + b3
}

/// The two's-complement value of four bytes read in big-endian order.
pub open spec fn be_i32_value(b0: u8, b1: u8, b2: u8, b3: u8) -> int {
    let u = be_u32_value(b0, b1, b2, b3);
    if u >= 0x8000_0000 {
        u - 0x1_0000_0000
    } else {
        u
    }
}

/// The two's-complement value of the four bytes of `s` from index `k` on.
pub open spec fn be_i32_at(s: Seq<u8>, k: int) -> int {
    be_i32_value(s[k], s[k + 1], s[k + 2], s[k + 3])
}

/// The four big-endian bytes of `v` in two's complement.
pub open spec fn spec_encode_i32(v: i32) -> Seq<u8> {
    let u: int = if v >= 0 {
        v as int
    } else {
        v + 0x1_0000_0000
    };
    seq![
        (u / 16777216) as u8,
        ((u / 65536) % 256) as u8,
        ((u / 256) % 256) as u8,
        (u % 256) as u8,
    ]
}

/// The message that `bytes` holds: a type byte, then two big-endian `i32`s.
pub open spec fn spec_parse_message(bytes: Seq<u8>) -> Result<Message, MessageError> {
    if bytes.len() < MESSAGE_LEN {
        Err(MessageError::TooShort)
    } else {
        match spec_message_type(bytes[0]) {
            None => Err(MessageError::UnknownType),
            Some(t) => Ok(
                Message { type_: t, first: be_i32_at(bytes, 1) as i32, second: be_i32_at(bytes, 5) as i32 },
            ),
        }
    }
}

impl MessageType {
    /// Reads a message type from its byte: `b'I'` (73) inserts, `b'Q'` (81)
    /// queries.
    pub fn from_byte(byte: u8) -> (r: Result<MessageType, MessageError>)
        ensures
            r == (match spec_message_type(byte) {
                Some(t) => Ok(t),
                None => Err(MessageError::UnknownType),
            }),
    {
        if byte == 73 {
            Ok(MessageType::Insert)
        } else if byte == 81 {
            Ok(MessageType::Query)
        } else {
            Err(MessageError::UnknownType)
        }
    }
}

/// Decodes four big-endian bytes as a two's-complement `i32`.
fn decode_i32_be(b0: u8, b1: u8, b2: u8, b3: u8) -> (v: i32)
    ensures
        v == be_i32_value(b0, b1, b2, b3),
{
    let u: u32 = (b0 as u32) * 16777216 + (b1 as u32) * 65536 + (b2 as u32) * 256 + (b3 as u32);
    if u < 0x8000_0000 {
        u as i32
    } else {
        ((u - 0x8000_0000) as i32) - 0x7fff_ffff - 1
    }
}

/// Encodes `v` as four big-endian bytes in two's complement.
pub fn encode_i32_be(v: i32) -> (bytes: Vec<u8>)
    ensures
        bytes@ == spec_encode_i32(v),
{
    let u: u32 = if v >= 0 {
        v as u32
    } else {
        ((v as i64) + 0x1_0000_0000) as u32
    };
    let mut bytes: Vec<u8> = Vec::new();
    bytes.push((u / 16777216) as u8);
    bytes.push(((u / 65536) % 256) as u8);
    bytes.push(((u / 256) % 256) as u8);
    bytes.push((u % 256) as u8);
    assert(bytes@ =~= spec_encode_i32(v));
    bytes
}

/// Decoding what `encode_i32_be` wrote gives the value back.
pub proof fn lemma_decode_encode(v: i32)
    ensures
        be_i32_at(spec_encode_i32(v), 0) == v,
{
    let u: int = if v >= 0 {
        v as int
    } else {
        v + 0x1_0000_0000
    };
    assert(0 <= u < 0x1_0000_0000);
    let s = spec_encode_i32(v);
    assert(u == (u / 16777216) * 16777216 + ((u / 65536) % 256) * 65536 + ((u / 256) % 256) * 256
        + u % 256) by (nonlinear_arith)
        requires
            0 <= u < 0x1_0000_0000,
    ;
}

/// Encoding a decoded value gives the four bytes back.
pub proof fn lemma_encode_decode(b0: u8, b1: u8, b2: u8, b3: u8)
    ensures
        spec_encode_i32(be_i32_value(b0, b1, b2, b3) as i32) == seq![b0, b1, b2, b3],
{
    let u = be_u32_value(b0, b1, b2, b3);
    let v = be_i32_value(b0, b1, b2, b3);
    assert(-0x8000_0000 <= v < 0x8000_0000);
    let w: int = if v >= 0 {
        v
    } else {
        v + 0x1_0000_0000
    };
    assert(w == u);
    assert(u / 16777216 == b0 && (u / 65536) % 256 == b1 && (u / 256) % 256 == b2 && u % 256 == b3)
        by (nonlinear_arith)
        requires
            u == b0 * 16777216 + b1 * 65536 + b2 * 256 + b3,
            0 <= b0 < 256,
            0 <= b1 < 256,
            0 <= b2 < 256,
            0 <= b3 < 256,
    ;
    assert(spec_encode_i32(v as i32) =~= seq![b0, b1, b2, b3]);
}

impl Message {
    /// Decodes a message from the first `MESSAGE_LEN` bytes of `bytes`.
    pub fn from_bytes(bytes: &[u8]) -> (r: Result<Message, MessageError>)
        ensures
            r == spec_parse_message(bytes@),
    {
        if bytes.len() < MESSAGE_LEN {
            return Err(MessageError::TooShort);
        }
        let type_ = match MessageType::from_byte(bytes[0]) {
            Ok(t) => t,
            Err(e) => return Err(e),
        };
        let first = decode_i32_be(bytes[1], bytes[2], bytes[3], bytes[4]);
        let second = decode_i32_be(bytes[5], bytes[6], bytes[7], bytes[8]);
        Ok(Message { type_, first, second })
    }
}


/// The timestamps of `s`, in order.
pub open spec fn timestamps(s: Seq<PriceEntry>) -> Seq<i32> {
    s.map_values(|e: PriceEntry| e.timestamp)
}

/// `e` falls within the closed time range `[low, high]`.
pub open spec fn in_range(e: PriceEntry, low: i32, high: i32) -> bool {
    low <= e.timestamp <= high
}

/// The sum of the prices in `s` whose timestamps fall in `[low, high]`.
pub open spec fn range_sum(s: Seq<PriceEntry>, low: i32, high: i32) -> int
    decreases s.len(),
{
    if s.len() == 0 {
        0
    } else {
        range_sum(s.drop_last(), low, high) + if in_range(s.last(), low, high) {
            s.last().price as int
        } else {
            0
        }
    }
}

/// The number of entries in `s` whose timestamps fall in `[low, high]`.
pub open spec fn range_count(s: Seq<PriceEntry>, low: i32, high: i32) -> int
    decreases s.len(),
{
    if s.len() == 0 {
        0
    } else {
        range_count(s.drop_last(), low, high) + if in_range(s.last(), low, high) {
            1int
        } else {
            0
        }
    }
}

/// The sum of all prices in `s`.
pub open spec fn price_sum(s: Seq<PriceEntry>) -> int
    decreases s.len(),
{
    if s.len() == 0 {
        0
    } else {
        price_sum(s.drop_last()) + s.last().price
    }
}

/// The number of entries in `s` whose timestamp is at most `t`.
pub open spec fn count_at_most(s: Seq<PriceEntry>, t: i32) -> int
    decreases s.len(),
{
    if s.len() == 0 {
        0
    } else {
        count_at_most(s.drop_last(), t) + if s.last().timestamp <= t {
            1int
        } else {
            0
        }
    }
}

/// `a / b` rounded toward zero, as integer division does in Rust.
pub open spec fn trunc_div(a: int, b: int) -> int {
    if a >= 0 {
        a / b
    } else {
        -((-a) / b)
    }
}

/// The mean price, rounded toward zero, or 0 when there is nothing to
/// average.
pub open spec fn mean_or_zero(sum: int, count: int) -> int {
    if count <= 0 {
        0
    } else {
        trunc_div(sum, count)
    }
}

/// The answer to a query for `[low, high]` over the entries `s`.
pub open spec fn spec_query(s: Seq<PriceEntry>, low: i32, high: i32) -> int {
    mean_or_zero(range_sum(s, low, high), range_count(s, low, high))
}

/// When no entry falls in the range, the range holds nothing.
proof fn lemma_range_empty(s: Seq<PriceEntry>, low: i32, high: i32)
    requires
        forall|i: int| 0 <= i < s.len() ==> !in_range(#[trigger] s[i], low, high),
    ensures
        range_sum(s, low, high) == 0,
        range_count(s, low, high) == 0,
    decreases s.len(),
{
    if s.len() > 0 {
        assert forall|i: int| 0 <= i < s.drop_last().len() implies !in_range(
            #[trigger] s.drop_last()[i],
            low,
            high,
        ) by {
            assert(s.drop_last()[i] == s[i]);
        }
        lemma_range_empty(s.drop_last(), low, high);
        assert(!in_range(s[s.len() - 1], low, high));
    }
}

/// When exactly the entries at indices `lo..end` fall in the range, the
/// range sum is the sum over that slice and the count its length.
proof fn lemma_range_slice(s: Seq<PriceEntry>, low: i32, high: i32, lo: int, end: int)
    requires
        0 <= lo <= end <= s.len(),
        forall|i: int| 0 <= i < s.len() ==> (in_range(#[trigger] s[i], low, high) <==> lo <= i < end),
    ensures
        range_sum(s, low, high) == price_sum(s.subrange(lo, end)),
        range_count(s, low, high) == end - lo,
    decreases s.len(),
{
    if lo == end {
        lemma_range_empty(s, low, high);
        assert(s.subrange(lo, end) =~= Seq::<PriceEntry>::empty());
    } else {
        let t = s.drop_last();
        let n = s.len();
        if end < n {
            assert forall|i: int| 0 <= i < t.len() implies (in_range(#[trigger] t[i], low, high)
                <==> lo <= i < end) by {
                assert(t[i] == s[i]);
            }
            lemma_range_slice(t, low, high, lo, end);
            assert(!in_range(s[n - 1], low, high));
            assert(t.subrange(lo, end) =~= s.subrange(lo, end));
        } else {
            assert forall|i: int| 0 <= i < t.len() implies (in_range(#[trigger] t[i], low, high)
                <==> lo <= i < end - 1) by {
                assert(t[i] == s[i]);
            }
            lemma_range_slice(t, low, high, lo, end - 1);
            assert(in_range(s[n - 1], low, high));
            assert(s.subrange(lo, end).drop_last() =~= t.subrange(lo, end - 1));
        }
    }
}

/// On entries sorted by time, the entries at most `t` are exactly the first
/// `k` ones when `k` splits them there.
proof fn lemma_count_at_most(s: Seq<PriceEntry>, t: i32, k: int)
    requires
        0 <= k <= s.len(),
        forall|i: int| 0 <= i < k ==> (#[trigger] s[i]).timestamp <= t,
        forall|i: int| k <= i < s.len() ==> (#[trigger] s[i]).timestamp > t,
    ensures
        count_at_most(s, t) == k,
    decreases s.len(),
{
    if s.len() > 0 {
        let u = s.drop_last();
        if k == s.len() {
            assert forall|i: int| 0 <= i < k - 1 implies (#[trigger] u[i]).timestamp <= t by {
                assert(u[i] == s[i]);
            }
            lemma_count_at_most(u, t, k - 1);
        } else {
            assert forall|i: int| 0 <= i < k implies (#[trigger] u[i]).timestamp <= t by {
                assert(u[i] == s[i]);
            }
            assert forall|i: int| k <= i < u.len() implies (#[trigger] u[i]).timestamp > t by {
                assert(u[i] == s[i]);
            }
            lemma_count_at_most(u, t, k);
        }
    }
}

/// A quotient bounded through its dividend.
proof fn lemma_div_bound(a: int, c: int, m: int)
    requires
        0 <= a <= m * c,
        c > 0,
        m >= 0,
    ensures
        0 <= a / c <= m,
{
    assert(0 <= a / c <= m) by (nonlinear_arith)
        requires
            0 <= a <= m * c,
            c > 0,
            m >= 0,
    ;
}

/// Inserting an entry anywhere among the stored ones changes what a query
/// averages by exactly that entry: a range's sum grows by its price and its
/// count by one when its timestamp falls in the range, and neither changes
/// otherwise.
pub proof fn lemma_insert_range(s: Seq<PriceEntry>, k: int, e: PriceEntry, low: i32, high: i32)
    requires
        0 <= k <= s.len(),
    ensures
        range_sum(s.insert(k, e), low, high) == range_sum(s, low, high) + if in_range(e, low, high) {
            e.price as int
        } else {
            0
        },
        range_count(s.insert(k, e), low, high) == range_count(s, low, high) + if in_range(
            e,
            low,
            high,
        ) {
            1int
        } else {
            0
        },
    decreases s.len(),
{
    let t = s.insert(k, e);
    if k == s.len() {
        assert(t.drop_last() =~= s);
    } else {
        assert(t.drop_last() =~= s.drop_last().insert(k, e));
        assert(t.last() == s.last());
        lemma_insert_range(s.drop_last(), k, e, low, high);
    }
}

/// No more entries are at most `t` than there are entries.
proof fn lemma_count_at_most_bound(s: Seq<PriceEntry>, t: i32)
    ensures
        0 <= count_at_most(s, t) <= s.len(),
    decreases s.len(),
{
    if s.len() > 0 {
        lemma_count_at_most_bound(s.drop_last(), t);
    }
}

/// The entries of a store that started empty and had `es` inserted, in that
/// order.
pub open spec fn spec_inserts(es: Seq<PriceEntry>) -> Seq<PriceEntry>
    decreases es.len(),
{
    if es.len() == 0 {
        Seq::empty()
    } else {
        let s = spec_inserts(es.drop_last());
        s.insert(count_at_most(s, es.last().timestamp), es.last())
    }
}

/// Whatever order entries arrive in, a query over a range sums and counts
/// exactly the inserted entries whose timestamps fall in the range.
pub proof fn lemma_inserts_range(es: Seq<PriceEntry>, low: i32, high: i32)
    ensures
        spec_inserts(es).len() == es.len(),
        range_sum(spec_inserts(es), low, high) == range_sum(es, low, high),
        range_count(spec_inserts(es), low, high) == range_count(es, low, high),
    decreases es.len(),
{
    if es.len() > 0 {
        let s = spec_inserts(es.drop_last());
        lemma_inserts_range(es.drop_last(), low, high);
        lemma_count_at_most_bound(s, es.last().timestamp);
        lemma_insert_range(s, count_at_most(s, es.last().timestamp), es.last(), low, high);
    }
}

/// Timestamped prices, kept sorted by timestamp; an entry with a timestamp
/// already present goes after the entries with that timestamp.
pub struct PriceStore {
    entries: Vec<PriceEntry>,
}

impl View for PriceStore {
    type V = Seq<PriceEntry>;

    open spec fn view(&self) -> Seq<PriceEntry> {
        self.spec_entries()
    }
}

/// What the session should do after a message.
#[derive(Debug)]
pub enum Outcome {
    /// Nothing to send; read the next message.
    Continue,
    /// Send these bytes, then read the next message.
    Respond(Vec<u8>),
    /// The message was not understood; end the session.
    Close,
}

impl PriceStore {
    /// The stored entries, in order.
    pub closed spec fn spec_entries(&self) -> Seq<PriceEntry> {
        self.entries@
    }

    #[verifier::type_invariant]
    spec fn wf(&self) -> bool {
        sorted(timestamps(self.entries@))
    }

    /// An empty store.
    pub fn new() -> (s: PriceStore)
        ensures
            s@ == Seq::<PriceEntry>::empty(),
    {
        let s = PriceStore { entries: Vec::new() };
        assert(timestamps(s.entries@) =~= Seq::<i32>::empty());
        s
    }

    fn timestamps_vec(&self) -> (ts: Vec<i32>)
        ensures
            ts@ == timestamps(self@),
    {
        let mut ts: Vec<i32> = Vec::new();
        let mut i: usize = 0;
        while i < self.entries.len()
            invariant
                i <= self.entries@.len(),
                ts@ =~= timestamps(self.entries@.take(i as int)),
            decreases self.entries@.len() - i,
        {
            ts.push(self.entries[i].timestamp);
            i = i + 1;
            assert(ts@ =~= timestamps(self.entries@.take(i as int)));
        }
        assert(self.entries@.take(i as int) =~= self.entries@);
        ts
    }

    /// Stores a price at a timestamp, keeping the entries sorted.
    pub fn insert(&mut self, timestamp: i32, price: i32)
        ensures
            final(self)@ == old(self)@.insert(
                count_at_most(old(self)@, timestamp),
                PriceEntry { timestamp, price },
            ),
            sorted(timestamps(final(self)@)),
    {
        proof {
            use_type_invariant(&*self);
        }
        let ts = self.timestamps_vec();
        let index = find_insert_index(ts.as_slice(), &timestamp);
        let entry = PriceEntry { timestamp, price };
        let mut entries: Vec<PriceEntry> = Vec::new();
        std::mem::swap(&mut entries, &mut self.entries);
        let ghost old_entries = entries@;
        proof {
            assert forall|i: int| 0 <= i < index implies (#[trigger] old_entries[i]).timestamp
                <= timestamp by {
                assert(ts@[i] == old_entries[i].timestamp);
            }
            assert forall|i: int| index <= i < old_entries.len() implies (
            #[trigger] old_entries[i]).timestamp > timestamp by {
                assert(ts@[i] == old_entries[i].timestamp);
            }
            lemma_count_at_most(old_entries, timestamp, index as int);
        }
        entries.insert(index, entry);
        assert(sorted(timestamps(entries@))) by {
            let t = timestamps(entries@);
            assert forall|a: int, b: int| 0 <= a <= b < t.len() implies t[a] <= t[b] by {
                let oa = if a < index { a } else { a - 1 };
                let ob = if b < index { b } else { b - 1 };
                if a != index && b != index {
                    assert(t[a] == ts@[oa]);
                    assert(t[b] == ts@[ob]);
                } else if a == index && b != index {
                    assert(t[b] == ts@[ob]);
                } else if a != index && b == index {
                    assert(t[a] == ts@[oa]);
                }
            }
        }
        self.entries = entries;
    }

    /// The mean of the prices whose timestamps fall in `[mintime, maxtime]`,
    /// rounded toward zero; 0 when there are none.
    pub fn query(&self, mintime: i32, maxtime: i32) -> (avg: i32)
        ensures
            avg == spec_query(self@, mintime, maxtime),
    {
        proof {
            use_type_invariant(self);
        }
        let ghost s = self.entries@;
        let ts = self.timestamps_vec();
        match find_bounds_index(ts.as_slice(), &mintime, &maxtime) {
            None => {
                proof {
                    assert forall|i: int| 0 <= i < s.len() implies !in_range(
                        #[trigger] s[i],
                        mintime,
                        maxtime,
                    ) by {
                        assert(ts@[i] == s[i].timestamp);
                        if s.len() > 0 {
                            assert(ts@[0] <= ts@[i]);
                            assert(ts@[i] <= ts@[ts@.len() - 1]);
                        }
                    }
                    lemma_range_empty(s, mintime, maxtime);
                }
                0
            },
            Some((lo, hi)) => {
                let n = self.entries.len();
                proof {
                    if hi + 1 < lo {
                        assert(ts@[hi + 1] < mintime);
                        assert(ts@[hi + 1] > maxtime);
                    }
                    assert forall|i: int| 0 <= i < s.len() implies (in_range(
                        #[trigger] s[i],
                        mintime,
                        maxtime,
                    ) <==> lo <= i < hi + 1) by {
                        assert(ts@[i] == s[i].timestamp);
                        if lo <= i <= hi {
                            assert(ts@[lo as int] <= ts@[i]);
                            assert(ts@[i] <= ts@[hi as int]);
                        }
                    }
                    lemma_range_slice(s, mintime, maxtime, lo as int, hi + 1);
                }
                let end = hi + 1;
                let mut sum: i128 = 0;
                let mut i: usize = lo;
                while i < end
                    invariant
                        lo <= i <= end <= n,
                        n == self.entries@.len(),
                        s == self.entries@,
                        sum == price_sum(s.subrange(lo as int, i as int)),
                        -2147483648 * (i - lo) <= sum <= 2147483647 * (i - lo),
                    decreases end - i,
                {
                    proof {
                        assert(s.subrange(lo as int, i + 1).drop_last() =~= s.subrange(
                            lo as int,
                            i as int,
                        ));
                    }
                    sum = sum + self.entries[i].price as i128;
                    i = i + 1;
                }
                let count = end - lo;
                if count == 0 {
                    return 0;
                }
                let c: i128 = count as i128;
                let avg: i128 = if sum >= 0 {
                    proof {
                        lemma_div_bound(sum as int, c as int, 2147483647);
                    }
                    ((sum as u128) / (c as u128)) as i128
                } else {
                    proof {
                        lemma_div_bound(-sum, c as int, 2147483648);
                    }
                    -((((-sum) as u128) / (c as u128)) as i128)
                };
                avg as i32
            },
        }
    }

    /// Acts on one message: an insert stores its entry, a query is answered
    /// with the mean as four big-endian bytes, and a message that cannot be
    /// read ends the session.
    pub fn handle_message(&mut self, bytes: &[u8]) -> (r: Outcome)
        ensures
            match spec_parse_message(bytes@) {
                Err(_) => r is Close && final(self)@ == old(self)@,
                Ok(m) => match m.type_ {
                    MessageType::Insert => r is Continue && final(self)@ == old(self)@.insert(
                        count_at_most(old(self)@, m.first),
                        PriceEntry { timestamp: m.first, price: m.second },
                    ),
                    MessageType::Query => final(self)@ == old(self)@ && (r matches Outcome::Respond(
                        reply,
                    ) && reply@ == spec_encode_i32(spec_query(old(self)@, m.first, m.second) as i32)),
                },
            },
    {
        match Message::from_bytes(bytes) {
            Err(_) => Outcome::Close,
            Ok(m) => match m.type_ {
                MessageType::Insert => {
                    self.insert(m.first, m.second);
                    Outcome::Continue
                },
                MessageType::Query => {
                    let avg = self.query(m.first, m.second);
                    Outcome::Respond(encode_i32_be(avg))
                },
            },
        }
    }
}

/// Takes the next whole message off the front of the read buffer, or
/// returns `None` and leaves the buffer as it is when it holds fewer than
/// `MESSAGE_LEN` bytes.
pub fn take_message(buf: &mut BytesMut) -> (r: Option<Vec<u8>>)
    ensures
        buffered(*old(buf)).len() < MESSAGE_LEN ==> r is None && buffered(*final(buf)) == buffered(
            *old(buf),
        ),
        buffered(*old(buf)).len() >= MESSAGE_LEN ==> (r matches Some(m) && m@ == buffered(
            *old(buf),
        ).take(MESSAGE_LEN as int) && buffered(*final(buf)) == buffered(*old(buf)).skip(
            MESSAGE_LEN as int,
        )),
{
    if buffer_len(buf) < MESSAGE_LEN {
        return None;
    }
    Some(buffer_take_front(buf, MESSAGE_LEN))
}

} // verus!
