//! The keys that indexes are sorted by, and their order.

use vstd::prelude::*;
use vstd::slice::slice_to_vec;

verus! {

/// A key: an integer, a byte string, or a pair of integers.
pub enum SortKey {
    Int(int),
    Bytes(Seq<u8>),
    Pair(int, int),
}

/// Byte strings in dictionary order.
pub open spec fn bytes_before(a: Seq<u8>, b: Seq<u8>) -> bool
    decreases a.len(),
{
    if b.len() == 0 {
        false
    } else if a.len() == 0 {
        true
    } else if a[0] != b[0] {
        a[0] < b[0]
    } else {
        bytes_before(a.skip(1), b.skip(1))
    }
}

/// The order of keys.
pub open spec fn key_before(a: SortKey, b: SortKey) -> bool {
    match (a, b) {
        (SortKey::Int(x), SortKey::Int(y)) => x < y,
        (SortKey::Bytes(x), SortKey::Bytes(y)) => bytes_before(x, y),
        (SortKey::Pair(x1, x2), SortKey::Pair(y1, y2)) => x1 < y1 || (x1 == y1 && x2 < y2),
        (SortKey::Int(_), _) => true,
        (SortKey::Bytes(_), SortKey::Pair(_, _)) => true,
        _ => false,
    }
}

proof fn lemma_bytes_total(a: Seq<u8>, b: Seq<u8>)
    ensures
        a == b || bytes_before(a, b) || bytes_before(b, a),
        !(bytes_before(a, b) && bytes_before(b, a)),
        a == b ==> !bytes_before(a, b),
    decreases a.len(),
{
    if a.len() == 0 && b.len() == 0 {
        assert(a =~= b);
    } else if a.len() > 0 && b.len() > 0 && a[0] == b[0] {
        lemma_bytes_total(a.skip(1), b.skip(1));
        if a.skip(1) == b.skip(1) {
            assert(a =~= seq![a[0]] + a.skip(1));
            assert(b =~= seq![b[0]] + b.skip(1));
        }
    }
}

proof fn lemma_bytes_transitive(a: Seq<u8>, b: Seq<u8>, c: Seq<u8>)
    requires
        bytes_before(a, b),
        bytes_before(b, c),
    ensures
        bytes_before(a, c),
    decreases a.len(),
{
    if a.len() > 0 && b.len() > 0 && c.len() > 0 && a[0] == b[0] && b[0] == c[0] {
        lemma_bytes_transitive(a.skip(1), b.skip(1), c.skip(1));
    }
}

/// Of two keys, one comes first, or they are the same.
pub proof fn lemma_key_total(a: SortKey, b: SortKey)
    ensures
        a == b || key_before(a, b) || key_before(b, a),
        !(key_before(a, b) && key_before(b, a)),
        !key_before(a, a),
{
    if let (SortKey::Bytes(x), SortKey::Bytes(y)) = (a, b) {
        lemma_bytes_total(x, y);
    }
    if let SortKey::Bytes(x) = a {
        lemma_bytes_total(x, x);
    }
}

pub proof fn lemma_key_transitive(a: SortKey, b: SortKey, c: SortKey)
    requires
        key_before(a, b),
        key_before(b, c),
    ensures
        key_before(a, c),
{
    match (a, b, c) {
        (SortKey::Bytes(x), SortKey::Bytes(y), SortKey::Bytes(z)) => {
            lemma_bytes_transitive(x, y, z);
        },
        _ => {},
    }
}

/// Values that an index can be sorted by.
pub trait IndexKey: Sized {
    /// The key of a value.
    spec fn key(&self) -> SortKey;

    /// Whether a value comes before another.
    fn less(&self, other: &Self) -> (b: bool)
        ensures
            b == key_before(self.key(), other.key()),
    ;

    /// Whether two values have the same key.
    fn same(&self, other: &Self) -> (b: bool)
        ensures
            b == (self.key() == other.key()),
    ;

    /// Another value with the same key.
    fn duplicate(&self) -> (r: Self)
        ensures
            r.key() == self.key(),
    ;
}

impl IndexKey for i64 {
    open spec fn key(&self) -> SortKey {
        SortKey::Int(*self as int)
    }

    fn less(&self, other: &Self) -> (b: bool) {
        *self < *other
    }

    fn same(&self, other: &Self) -> (b: bool) {
        *self == *other
    }

    fn duplicate(&self) -> (r: Self) {
        *self
    }
}

impl IndexKey for i32 {
    open spec fn key(&self) -> SortKey {
        SortKey::Int(*self as int)
    }

    fn less(&self, other: &Self) -> (b: bool) {
        *self < *other
    }

    fn same(&self, other: &Self) -> (b: bool) {
        *self == *other
    }

    fn duplicate(&self) -> (r: Self) {
        *self
    }
}

impl IndexKey for (i64, i64) {
    open spec fn key(&self) -> SortKey {
        SortKey::Pair(self.0 as int, self.1 as int)
    }

    fn less(&self, other: &Self) -> (b: bool) {
        self.0 < other.0 || (self.0 == other.0 && self.1 < other.1)
    }

    fn same(&self, other: &Self) -> (b: bool) {
        self.0 == other.0 && self.1 == other.1
    }

    fn duplicate(&self) -> (r: Self) {
        (self.0, self.1)
    }
}

impl IndexKey for Vec<u8> {
    open spec fn key(&self) -> SortKey {
        SortKey::Bytes(self@)
    }

    fn less(&self, other: &Self) -> (b: bool) {
        bytes_less(self.as_slice(), other.as_slice())
    }

    fn same(&self, other: &Self) -> (b: bool) {
        bytes_same(self.as_slice(), other.as_slice())
    }

    fn duplicate(&self) -> (r: Self) {
        slice_to_vec(self.as_slice())
    }
}

/// Whether a byte string comes before another.
pub fn bytes_less(a: &[u8], b: &[u8]) -> (r: bool)
    ensures
        r == bytes_before(a@, b@),
{
    let mut i: usize = 0;
    proof {
        assert(a@.skip(0) =~= a@);
        assert(b@.skip(0) =~= b@);
    }
    loop
        invariant
            i <= a@.len(),
            i <= b@.len(),
            bytes_before(a@, b@) == bytes_before(a@.skip(i as int), b@.skip(i as int)),
        decreases a@.len() - i,
    {
        if i == b.len() {
            return false;
        }
        if i == a.len() {
            return true;
        }
        if a[i] != b[i] {
            return a[i] < b[i];
        }
        proof {
            assert(a@.skip(i as int).skip(1) =~= a@.skip(i + 1));
            assert(b@.skip(i as int).skip(1) =~= b@.skip(i + 1));
        }
        i = i + 1;
    }
}

/// Whether two byte strings are equal.
pub fn bytes_same(a: &[u8], b: &[u8]) -> (r: bool)
    ensures
        r == (a@ == b@),
{
    if a.len() != b.len() {
        return false;
    }
    let mut i: usize = 0;
    while i < a.len()
        invariant
            i <= a@.len() == b@.len(),
            forall|k: int| 0 <= k < i ==> a@[k] == b@[k],
        decreases a@.len() - i,
    {
        if a[i] != b[i] {
            return false;
        }
        i = i + 1;
    }
    proof {
        assert(a@ =~= b@);
    }
    true
}

/// The first byte in which two strings differ decides their order, by its
/// value from 0 to 255.
pub proof fn law_first_difference_decides(
    common: Seq<u8>,
    a: u8,
    x: Seq<u8>,
    b: u8,
    y: Seq<u8>,
)
    requires
        a != b,
    ensures
        bytes_before(common + seq![a] + x, common + seq![b] + y) == (a < b),
    decreases common.len(),
{
    let (s, t) = (common + seq![a] + x, common + seq![b] + y);
    if common.len() > 0 {
        let rest = common.skip(1);
        law_first_difference_decides(rest, a, x, b, y);
        assert(s.skip(1) =~= rest + seq![a] + x);
        assert(t.skip(1) =~= rest + seq![b] + y);
    }
}

/// A string comes before every longer string that it starts, and not after
/// itself.
pub proof fn law_prefix_comes_first(common: Seq<u8>, more: Seq<u8>)
    requires
        more.len() > 0,
    ensures
        bytes_before(common, common + more),
        !bytes_before(common + more, common),
        !bytes_before(common, common),
    decreases common.len(),
{
    if common.len() > 0 {
        law_prefix_comes_first(common.skip(1), more);
        assert((common + more).skip(1) =~= common.skip(1) + more);
    }
}

/// Integers are ordered as numbers, pairs by their first and then by their
/// second number.
pub proof fn law_integers_are_ordered_as_numbers(a: int, b: int, c: int, d: int)
    ensures
        key_before(SortKey::Int(a), SortKey::Int(b)) == (a < b),
        a != c ==> key_before(SortKey::Pair(a, b), SortKey::Pair(c, d)) == (a < c),
        key_before(SortKey::Pair(a, b), SortKey::Pair(a, d)) == (b < d),
{
}

} // verus!
