//! Data keys: the short ways to say which bytes are meant.

use vstd::prelude::*;

use sha3::Digest;

use crate::ordered::{ascends, KeyOrder, OrderedKey};
use crate::value::{encoded_all, same_bytes, ProductValue, Row};

verus! {

/// The longest data that a key holds itself.
pub const INLINE_SIZE: usize = 32;

/// A key of some data: the data, where it is short, or else its hash.
#[derive(Debug, PartialEq, Eq)]
pub enum DataKey {
    Data(Vec<u8>),
    Hash(Vec<u8>),
}

/// What a key is.
pub enum Key {
    Data(Seq<u8>),
    Hash(Seq<u8>),
}

/// The Keccak-256 digest of `data`.
pub uninterp spec fn keccak256_digest(data: Seq<u8>) -> Seq<u8>;

/// `sha3::Keccak256::digest`: the Keccak-256 digest of the data, which is 32 bytes long.
#[verifier::external_body]
fn keccak256(data: &Vec<u8>) -> (r: Vec<u8>)
    ensures
        r@ == keccak256_digest(data@),
        r@.len() == 32,
{
    sha3::Keccak256::digest(data.as_slice()).to_vec()
}

/// The key of `data`.
pub open spec fn key_of(data: Seq<u8>) -> Key {
    if data.len() <= INLINE_SIZE {
        Key::Data(data)
    } else {
        Key::Hash(keccak256_digest(data))
    }
}

/// The key of a row: that of its bytes.
pub open spec fn row_key(row: Row) -> Key {
    key_of(encoded_all(row))
}

/// `a` comes before `b`, byte by byte, a beginning before what it begins.
pub open spec fn bytes_before(a: Seq<u8>, b: Seq<u8>) -> bool
    decreases b.len(),
{
    if b.len() == 0 {
        false
    } else if a.len() == 0 {
        true
    } else {
        a[0] < b[0] || (a[0] == b[0] && bytes_before(a.skip(1), b.skip(1)))
    }
}

proof fn lemma_bytes_irreflexive(a: Seq<u8>)
    ensures
        !bytes_before(a, a),
    decreases a.len(),
{
    if a.len() > 0 {
        lemma_bytes_irreflexive(a.skip(1));
    }
}

proof fn lemma_bytes_transitive(a: Seq<u8>, b: Seq<u8>, c: Seq<u8>)
    requires
        bytes_before(a, b),
        bytes_before(b, c),
    ensures
        bytes_before(a, c),
    decreases c.len(),
{
    if a.len() > 0 && a[0] == b[0] && b[0] == c[0] {
        lemma_bytes_transitive(a.skip(1), b.skip(1), c.skip(1));
    }
}

proof fn lemma_bytes_total(a: Seq<u8>, b: Seq<u8>)
    ensures
        bytes_before(a, b) || a == b || bytes_before(b, a),
    decreases a.len(),
{
    if a.len() == 0 || b.len() == 0 {
        if a.len() == b.len() {
            assert(a =~= b);
        }
    } else if a[0] == b[0] {
        lemma_bytes_total(a.skip(1), b.skip(1));
        if a.skip(1) == b.skip(1) {
            assert(a =~= seq![a[0]] + a.skip(1));
            assert(b =~= seq![b[0]] + b.skip(1));
        }
    }
}

fn bytes_order(a: &Vec<u8>, b: &Vec<u8>) -> (r: KeyOrder)
    ensures
        match r {
            KeyOrder::Before => bytes_before(a@, b@),
            KeyOrder::Same => a@ == b@,
            KeyOrder::After => bytes_before(b@, a@),
        },
{
    let mut i: usize = 0;
    assert(a@.skip(0) =~= a@);
    assert(b@.skip(0) =~= b@);
    while i < a.len() && i < b.len()
        invariant
            i <= a@.len(),
            i <= b@.len(),
            forall|j: int| 0 <= j < i ==> a@[j] == b@[j],
            bytes_before(a@, b@) == bytes_before(a@.skip(i as int), b@.skip(i as int)),
            bytes_before(b@, a@) == bytes_before(b@.skip(i as int), a@.skip(i as int)),
        decreases a@.len() - i,
    {
        if a[i] < b[i] {
            return KeyOrder::Before;
        }
        if b[i] < a[i] {
            return KeyOrder::After;
        }
        assert(a@.skip(i as int).skip(1) =~= a@.skip(i + 1));
        assert(b@.skip(i as int).skip(1) =~= b@.skip(i + 1));
        i = i + 1;
    }
    if i < b.len() {
        KeyOrder::Before
    } else if i < a.len() {
        KeyOrder::After
    } else {
        assert(a@ =~= b@);
        KeyOrder::Same
    }
}

impl View for DataKey {
    type V = Key;

    open spec fn view(&self) -> Key {
        match self {
            DataKey::Data(b) => Key::Data(b@),
            DataKey::Hash(b) => Key::Hash(b@),
        }
    }
}

impl OrderedKey for DataKey {
    /// Data comes before hashes.
    open spec fn before(a: Key, b: Key) -> bool {
        match (a, b) {
            (Key::Data(x), Key::Data(y)) => bytes_before(x, y),
            (Key::Data(_), Key::Hash(_)) => true,
            (Key::Hash(_), Key::Data(_)) => false,
            (Key::Hash(x), Key::Hash(y)) => bytes_before(x, y),
        }
    }

    proof fn law_irreflexive(a: Key) {
        match a {
            Key::Data(x) => lemma_bytes_irreflexive(x),
            Key::Hash(x) => lemma_bytes_irreflexive(x),
        }
    }

    proof fn law_transitive(a: Key, b: Key, c: Key) {
        match (a, b, c) {
            (Key::Data(x), Key::Data(y), Key::Data(z)) => lemma_bytes_transitive(x, y, z),
            (Key::Hash(x), Key::Hash(y), Key::Hash(z)) => lemma_bytes_transitive(x, y, z),
            _ => {},
        }
    }

    proof fn law_total(a: Key, b: Key) {
        match (a, b) {
            (Key::Data(x), Key::Data(y)) => lemma_bytes_total(x, y),
            (Key::Hash(x), Key::Hash(y)) => lemma_bytes_total(x, y),
            _ => {},
        }
    }

    fn order(&self, other: &Self) -> (r: KeyOrder) {
        match (self, other) {
            (DataKey::Data(x), DataKey::Data(y)) => bytes_order(x, y),
            (DataKey::Data(_), DataKey::Hash(_)) => KeyOrder::Before,
            (DataKey::Hash(_), DataKey::Data(_)) => KeyOrder::After,
            (DataKey::Hash(x), DataKey::Hash(y)) => bytes_order(x, y),
        }
    }

    fn duplicate(&self) -> (r: Self) {
        match self {
            DataKey::Data(b) => DataKey::Data(b.clone()),
            DataKey::Hash(b) => DataKey::Hash(b.clone()),
        }
    }
}

impl Clone for DataKey {
    fn clone(&self) -> (r: Self)
        ensures
            r@ == self@,
    {
        self.duplicate()
    }
}

impl DataKey {
    pub fn from_data(data: &Vec<u8>) -> (r: DataKey)
        ensures
            r@ == key_of(data@),
    {
        if data.len() <= INLINE_SIZE {
            DataKey::Data(data.clone())
        } else {
            DataKey::Hash(keccak256(data))
        }
    }

    /// Whether the two are the same key.
    pub fn same(&self, other: &DataKey) -> (r: bool)
        ensures
            r == (self@ == other@),
    {
        match (self, other) {
            (DataKey::Data(x), DataKey::Data(y)) => same_bytes(x, y),
            (DataKey::Hash(x), DataKey::Hash(y)) => same_bytes(x, y),
            _ => false,
        }
    }
}

impl ProductValue {
    /// The key of the row.
    pub fn to_data_key(&self) -> (r: DataKey)
        ensures
            r@ == row_key(self@),
    {
        let mut bytes: Vec<u8> = Vec::new();
        self.encode(&mut bytes);
        assert(bytes@ =~= encoded_all(self@));
        DataKey::from_data(&bytes)
    }
}

/// The id of a row in its table: the key of the row.
#[derive(Debug, PartialEq, Eq)]
pub struct RowId(pub DataKey);

impl View for RowId {
    type V = Key;

    open spec fn view(&self) -> Key {
        self.0@
    }
}

impl OrderedKey for RowId {
    open spec fn before(a: Key, b: Key) -> bool {
        DataKey::before(a, b)
    }

    proof fn law_irreflexive(a: Key) {
        DataKey::law_irreflexive(a);
    }

    proof fn law_transitive(a: Key, b: Key, c: Key) {
        DataKey::law_transitive(a, b, c);
    }

    proof fn law_total(a: Key, b: Key) {
        DataKey::law_total(a, b);
    }

    fn order(&self, other: &Self) -> (r: KeyOrder) {
        self.0.order(&other.0)
    }

    fn duplicate(&self) -> (r: Self) {
        RowId(self.0.duplicate())
    }
}

impl Clone for RowId {
    fn clone(&self) -> (r: Self)
        ensures
            r@ == self@,
    {
        self.duplicate()
    }
}

/// What each of `s` is.
pub open spec fn row_ids(s: Seq<RowId>) -> Seq<Key> {
    s.map_values(|id: RowId| id@)
}

/// `s` is exactly the ids in `d`, in their order.
pub open spec fn lists_in_order(s: Seq<RowId>, d: Set<Key>) -> bool {
    ascends::<RowId>(row_ids(s)) && row_ids(s).to_set() == d
}

} // verus!
