//! The key-value store: a request `key=value` stores a value, a request
//! `key` retrieves one, and the `version` key cannot be overwritten.

use crate::text::{latin1, push_latin1};
use vstd::prelude::*;
use vstd::string::StringSliceAdditionalSpecFns;

verus! {

/// The byte `=` that splits a key from its value.
pub const EQUALS: u8 = 61;

/// A request.
#[derive(Debug, PartialEq, Eq)]
pub enum Request {
    Insert { key: String, value: String },
    Retrieve { key: String },
}

/// A request, with its strings taken as character sequences.
pub enum RequestView {
    Insert { key: Seq<char>, value: Seq<char> },
    Retrieve { key: Seq<char> },
}

impl View for Request {
    type V = RequestView;

    open spec fn view(&self) -> RequestView {
        match self {
            Request::Insert { key, value } => RequestView::Insert { key: key@, value: value@ },
            Request::Retrieve { key } => RequestView::Retrieve { key: key@ },
        }
    }
}

/// The index of the first `=` in `b`, or its length when it has none.
pub open spec fn first_equals(b: Seq<u8>) -> int
    decreases b.len(),
{
    if b.len() == 0 {
        0
    } else if b[0] == EQUALS {
        0
    } else {
        1 + first_equals(b.drop_first())
    }
}

/// The request that the bytes `b` hold: everything up to the first `=` is
/// the key and everything after it the value; with no `=`, the whole is a
/// key to retrieve.  Each byte stands for one character.
pub open spec fn spec_parse_request(b: Seq<u8>) -> RequestView {
    let i = first_equals(b);
    if i >= b.len() {
        RequestView::Retrieve { key: latin1(b) }
    } else {
        RequestView::Insert { key: latin1(b.take(i)), value: latin1(b.skip(i + 1)) }
    }
}

/// `first_equals` is the first index that holds `=`.
proof fn lemma_first_equals(b: Seq<u8>, i: int)
    requires
        0 <= i <= b.len(),
        forall|j: int| 0 <= j < i ==> b[j] != EQUALS,
        i == b.len() || b[i] == EQUALS,
    ensures
        first_equals(b) == i,
    decreases i,
{
    if i > 0 {
        lemma_first_equals(b.drop_first(), i - 1);
    }
}

impl Request {
    /// Reads a request from its bytes.
    pub fn parse(b: &[u8]) -> (r: Request)
        ensures
            r@ == spec_parse_request(b@),
    {
        let mut i: usize = 0;
        while i < b.len() && b[i] != EQUALS
            invariant
                i <= b@.len(),
                forall|j: int| 0 <= j < i ==> b@[j] != EQUALS,
            decreases b@.len() - i,
        {
            i = i + 1;
        }
        proof {
            lemma_first_equals(b@, i as int);
        }
        let mut key = String::new();
        push_latin1(&mut key, b, 0, i);
        if i >= b.len() {
            assert(b@.subrange(0, i as int) =~= b@);
            return Request::Retrieve { key };
        }
        let mut value = String::new();
        push_latin1(&mut value, b, i + 1, b.len());
        assert(b@.subrange(0, i as int) =~= b@.take(i as int));
        assert(b@.subrange(i + 1, b@.len() as int) =~= b@.skip(i + 1));
        Request::Insert { key, value }
    }
}

/// A request could not be read (which never happens: every text is a
/// request).
#[derive(Debug)]
pub struct RequestParseError;

impl std::str::FromStr for Request {
    type Err = RequestParseError;

    /// Reads a request from the bytes of `s`; this always succeeds.
    fn from_str(s: &str) -> (r: Result<Request, RequestParseError>)
        ensures
            r matches Ok(req) && req@ == spec_parse_request(s.spec_bytes()),
    {
        Ok(Request::parse(s.as_bytes()))
    }
}


/// Parsing `key=value`, for a key without `=`, gives back the key and the
/// value.
pub proof fn lemma_parse_insert(key: Seq<u8>, value: Seq<u8>)
    requires
        forall|j: int| 0 <= j < key.len() ==> key[j] != EQUALS,
    ensures
        spec_parse_request(key + seq![EQUALS] + value) == (RequestView::Insert {
            key: latin1(key),
            value: latin1(value),
        }),
{
    let b = key + seq![EQUALS] + value;
    lemma_first_equals(b, key.len() as int);
    assert(b.take(key.len() as int) =~= key);
    assert(b.skip(key.len() + 1int) =~= value);
}

/// Parsing a text without `=` gives a retrieval of the whole text.
pub proof fn lemma_parse_retrieve(key: Seq<u8>)
    requires
        forall|j: int| 0 <= j < key.len() ==> key[j] != EQUALS,
    ensures
        spec_parse_request(key) == (RequestView::Retrieve { key: latin1(key) }),
{
    lemma_first_equals(key, key.len() as int);
}

/// The map from keys to values that parallel key and value lists describe.
pub open spec fn map_of(keys: Seq<Seq<char>>, values: Seq<Seq<char>>) -> Map<Seq<char>, Seq<char>>
    decreases keys.len(),
{
    if keys.len() == 0 {
        Map::empty()
    } else {
        map_of(keys.drop_last(), values.drop_last()).insert(keys.last(), values.last())
    }
}

/// No key occurs twice.
pub open spec fn distinct(keys: Seq<Seq<char>>) -> bool {
    forall|i: int, j: int| 0 <= i < keys.len() && 0 <= j < keys.len() && i != j ==> keys[i] != keys[j]
}

/// The views of a list of strings.
pub open spec fn views(v: Seq<String>) -> Seq<Seq<char>> {
    v.map_values(|s: String| s@)
}

/// A key is in the map exactly when it is in the list.
proof fn lemma_map_of_dom(keys: Seq<Seq<char>>, values: Seq<Seq<char>>, k: Seq<char>)
    requires
        keys.len() == values.len(),
    ensures
        map_of(keys, values).contains_key(k) <==> keys.contains(k),
    decreases keys.len(),
{
    if keys.len() > 0 {
        lemma_map_of_dom(keys.drop_last(), values.drop_last(), k);
        if keys.drop_last().contains(k) {
            let j = choose|j: int| 0 <= j < keys.drop_last().len() && keys.drop_last()[j] == k;
            assert(keys[j] == k);
        }
        if keys.contains(k) {
            let j = choose|j: int| 0 <= j < keys.len() && keys[j] == k;
            if j < keys.len() - 1 {
                assert(keys.drop_last()[j] == k);
            }
        }
    }
}

/// With distinct keys, the map takes each listed key to its listed value.
proof fn lemma_map_of_index(keys: Seq<Seq<char>>, values: Seq<Seq<char>>, i: int)
    requires
        keys.len() == values.len(),
        distinct(keys),
        0 <= i < keys.len(),
    ensures
        map_of(keys, values).contains_key(keys[i]),
        map_of(keys, values)[keys[i]] == values[i],
    decreases keys.len(),
{
    if i < keys.len() - 1 {
        lemma_map_of_index(keys.drop_last(), values.drop_last(), i);
        assert(keys.drop_last()[i] == keys[i]);
        assert(keys[keys.len() - 1] != keys[i]);
    }
}

/// With distinct keys, changing a listed value changes the map there.
proof fn lemma_map_of_update(keys: Seq<Seq<char>>, values: Seq<Seq<char>>, i: int, v: Seq<char>)
    requires
        keys.len() == values.len(),
        distinct(keys),
        0 <= i < keys.len(),
    ensures
        map_of(keys, values.update(i, v)) == map_of(keys, values).insert(keys[i], v),
    decreases keys.len(),
{
    let n = keys.len();
    if i == n - 1 {
        assert(values.update(i, v).drop_last() =~= values.drop_last());
        assert(map_of(keys, values.update(i, v)) =~= map_of(keys, values).insert(keys[i], v));
    } else {
        let k2 = keys.drop_last();
        assert(distinct(k2)) by {
            assert forall|a: int, b: int| 0 <= a < k2.len() && 0 <= b < k2.len() && a != b implies k2[a]
                != k2[b] by {
                assert(k2[a] == keys[a] && k2[b] == keys[b]);
            }
        }
        lemma_map_of_update(k2, values.drop_last(), i, v);
        assert(values.update(i, v).drop_last() =~= values.drop_last().update(i, v));
        assert(k2[i] == keys[i]);
        assert(keys.last() != keys[i]);
        assert(map_of(keys, values.update(i, v)) =~= map_of(keys, values).insert(keys[i], v));
    }
}

/// A map from keys to values.
pub struct Store {
    keys: Vec<String>,
    values: Vec<String>,
}

impl View for Store {
    type V = Map<Seq<char>, Seq<char>>;

    open spec fn view(&self) -> Map<Seq<char>, Seq<char>> {
        self.spec_map()
    }
}

/// The value stored under `key`, or the empty text when there is none.
pub open spec fn lookup(m: Map<Seq<char>, Seq<char>>, key: Seq<char>) -> Seq<char> {
    if m.contains_key(key) {
        m[key]
    } else {
        Seq::empty()
    }
}

/// The map after a request: an insert stores its value unless its key is
/// the version key; a retrieval changes nothing.
pub open spec fn spec_handle(m: Map<Seq<char>, Seq<char>>, r: RequestView) -> Map<Seq<char>, Seq<char>> {
    match r {
        RequestView::Insert { key, value } => if key == version_key() {
            m
        } else {
            m.insert(key, value)
        },
        RequestView::Retrieve { .. } => m,
    }
}

/// The key that no request can overwrite.
pub open spec fn version_key() -> Seq<char> {
    "version"@
}

/// The value stored under the version key from the start.
pub open spec fn version_value() -> Seq<char> {
    "Ken's Key-Value Store 1.0"@
}

impl Store {
    /// The stored map.
    pub closed spec fn spec_map(&self) -> Map<Seq<char>, Seq<char>> {
        map_of(views(self.keys@), views(self.values@))
    }

    #[verifier::type_invariant]
    spec fn wf(&self) -> bool {
        &&& self.keys@.len() == self.values@.len()
        &&& distinct(views(self.keys@))
    }

    /// An empty store.
    pub fn new() -> (s: Store)
        ensures
            s@ == Map::<Seq<char>, Seq<char>>::empty(),
    {
        let s = Store { keys: Vec::new(), values: Vec::new() };
        assert(views(s.keys@) =~= Seq::<Seq<char>>::empty());
        s
    }

    /// A store that holds only the version.
    pub fn with_version() -> (s: Store)
        ensures
            s@ == Map::<Seq<char>, Seq<char>>::empty().insert(version_key(), version_value()),
    {
        let mut s = Store::new();
        s.put(String::from_str("version"), String::from_str("Ken's Key-Value Store 1.0"));
        s
    }

    /// The index of `key` in the key list, if it is there.
    fn find(&self, key: &String) -> (r: Option<usize>)
        ensures
            r matches Some(i) ==> i < self.keys@.len() && self.keys@[i as int]@ == key@,
            r is None ==> !views(self.keys@).contains(key@),
    {
        let mut i: usize = 0;
        while i < self.keys.len()
            invariant
                i <= self.keys@.len(),
                forall|j: int| 0 <= j < i ==> self.keys@[j]@ != key@,
            decreases self.keys@.len() - i,
        {
            if self.keys[i] == *key {
                return Some(i);
            }
            i = i + 1;
        }
        proof {
            if views(self.keys@).contains(key@) {
                let j = choose|j: int| 0 <= j < views(self.keys@).len() && views(self.keys@)[j] == key@;
                assert(self.keys@[j]@ == key@);
            }
        }
        None
    }

    /// Stores `value` under `key`, replacing what was there.
    pub fn put(&mut self, key: String, value: String)
        ensures
            final(self)@ == old(self)@.insert(key@, value@),
    {
        proof {
            use_type_invariant(&*self);
        }
        let ghost kv = views(self.keys@);
        let ghost vv = views(self.values@);
        let found = self.find(&key);
        let mut taken = Store::new();
        std::mem::swap(&mut taken, self);
        let Store { mut keys, mut values } = taken;
        match found {
            Some(i) => {
                values.set(i, value);
                proof {
                    assert(views(values@) =~= vv.update(i as int, value@));
                    assert(kv[i as int] == key@);
                    lemma_map_of_update(kv, vv, i as int, value@);
                }
            },
            None => {
                keys.push(key);
                values.push(value);
                proof {
                    assert(views(keys@).drop_last() =~= kv);
                    assert(views(values@).drop_last() =~= vv);
                    assert(distinct(views(keys@))) by {
                        let nk = views(keys@);
                        assert forall|a: int, b: int|
                            0 <= a < nk.len() && 0 <= b < nk.len() && a != b implies nk[a] != nk[b] by {
                            if a < kv.len() && b < kv.len() {
                                assert(nk[a] == kv[a] && nk[b] == kv[b]);
                            } else if a < kv.len() {
                                assert(nk[a] == kv[a]);
                                assert(kv.contains(nk[a]));
                            } else {
                                assert(nk[b] == kv[b]);
                                assert(kv.contains(nk[b]));
                            }
                        }
                    }
                }
            },
        }
        *self = Store { keys, values };
    }

    /// The value stored under `key`, or the empty text when there is none.
    pub fn get(&self, key: &str) -> (r: String)
        ensures
            r@ == lookup(self@, key@),
    {
        proof {
            use_type_invariant(self);
        }
        let k = String::from_str(key);
        proof {
            lemma_map_of_dom(views(self.keys@), views(self.values@), key@);
        }
        match self.find(&k) {
            Some(i) => {
                proof {
                    lemma_map_of_index(views(self.keys@), views(self.values@), i as int);
                }
                self.values[i].clone()
            },
            None => String::new(),
        }
    }

    /// Acts on one request: an insert stores its value unless its key is the
    /// version key, and a retrieval is answered with `key=value`.
    pub fn handle(&mut self, request: Request) -> (r: Option<String>)
        ensures
            final(self)@ == spec_handle(old(self)@, request@),
            match request@ {
                RequestView::Insert { .. } => r is None,
                RequestView::Retrieve { key } => r matches Some(resp) && resp@ == key + "="@ + lookup(
                    old(self)@,
                    key,
                ),
            },
    {
        match request {
            Request::Insert { key, value } => {
                let version = String::from_str("version");
                if key != version {
                    self.put(key, value);
                }
                None
            },
            Request::Retrieve { key } => {
                let value = self.get(key.as_str());
                let mut response = key;
                response.append("=");
                response.append(value.as_str());
                Some(response)
            },
        }
    }
}

/// What is stored under a key is what a retrieval of that key gives back,
/// until the key is written again; other keys keep their values.
pub proof fn lemma_read_after_write(m: Map<Seq<char>, Seq<char>>, key: Seq<char>, value: Seq<char>, other: Seq<char>)
    ensures
        lookup(m.insert(key, value), key) == value,
        other != key ==> lookup(m.insert(key, value), other) == lookup(m, other),
{
}


/// An insert under any key but the version key stores its value there,
/// whether or not the key held a value before: a later retrieval of the key
/// answers `key=value`.  Every other key keeps what it held.
pub proof fn lemma_insert_overwrites(
    m: Map<Seq<char>, Seq<char>>,
    key: Seq<char>,
    value: Seq<char>,
    other: Seq<char>,
)
    requires
        key != "version"@,
    ensures
        spec_handle(m, RequestView::Insert { key, value }).contains_key(key),
        spec_handle(m, RequestView::Insert { key, value })[key] == value,
        lookup(spec_handle(m, RequestView::Insert { key, value }), key) == value,
        key + "="@ + lookup(spec_handle(m, RequestView::Insert { key, value }), key) == key + "="@
            + value,
        other != key ==> spec_handle(m, RequestView::Insert { key, value }).contains_key(other)
            == m.contains_key(other),
        other != key && m.contains_key(other) ==> spec_handle(
            m,
            RequestView::Insert { key, value },
        )[other] == m[other],
{
}

/// No request changes what the version key holds.
pub proof fn lemma_version_kept(m: Map<Seq<char>, Seq<char>>, r: RequestView)
    ensures
        lookup(spec_handle(m, r), version_key()) == lookup(m, version_key()),
{
}

} // verus!
