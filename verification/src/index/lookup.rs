//! Search in sorted index rows.

use vstd::prelude::*;

use crate::delta::byte_strings;
use crate::error::{reports, Fault, Outcome, Result};
use crate::index::keys::{
    key_before, lemma_key_total, lemma_key_transitive, IndexKey, SortKey,
};
use crate::index::rowset::{bitmap_in, to_bitmap, RowsetFormat};
use crate::index::types::{hit_views, HitView, IndexHit};
use crate::wrap::{as_u32, low32};

verus! {

/// Where the rows of an index point: a page of the source, and a stored row
/// set.
#[derive(Debug)]
pub struct Postings {
    pub target_rgs: Vec<i32>,
    pub target_pages: Vec<i32>,
    pub rowsets: Vec<Vec<u8>>,
}

/// What postings say.
pub struct PostingsView {
    pub target_rgs: Seq<i32>,
    pub target_pages: Seq<i32>,
    pub rowsets: Seq<Seq<u8>>,
}

impl View for Postings {
    type V = PostingsView;

    open spec fn view(&self) -> PostingsView {
        PostingsView {
            target_rgs: self.target_rgs@,
            target_pages: self.target_pages@,
            rowsets: byte_strings(self.rowsets@),
        }
    }
}

impl PostingsView {
    /// There is one of each per index row.
    pub open spec fn aligned(self, n: nat) -> bool {
        self.target_rgs.len() == n && self.target_pages.len() == n && self.rowsets.len() == n
    }
}

/// That keys do not descend.
pub open spec fn sorted(keys: Seq<SortKey>) -> bool {
    forall|i: int, j: int| #![trigger keys[i], keys[j]]
        0 <= i < j < keys.len() ==> !key_before(keys[j], keys[i])
}

/// The keys of values.
pub open spec fn value_keys<K: IndexKey>(values: Seq<K>) -> Seq<SortKey> {
    values.map_values(|v: K| v.key())
}

/// The hit of one index row.
pub open spec fn hit_at(p: PostingsView, i: int, format: RowsetFormat) -> std::result::Result<
    HitView,
    Fault,
> {
    match bitmap_in(p.rowsets[i], format) {
        Ok(rowset) => Ok(
            HitView {
                row_group: low32(p.target_rgs[i] as int),
                page: low32(p.target_pages[i] as int),
                rowset,
            },
        ),
        Err(f) => Err(f),
    }
}

/// The hits of the index rows `[start, end)`, up to the first row set that
/// cannot be read.
pub open spec fn hits_in(p: PostingsView, start: nat, end: nat, format: RowsetFormat) -> Outcome<
    HitView,
>
    decreases end - start,
{
    if start >= end {
        Outcome { emitted: Seq::empty(), fault: None }
    } else {
        match hit_at(p, start as int, format) {
            Err(f) => Outcome { emitted: Seq::empty(), fault: Some(f) },
            Ok(h) => hits_in(p, start + 1, end, format).after(seq![h]),
        }
    }
}

/// That a lookup answered with the hits of an outcome, or failed as it did.
pub open spec fn answers(r: Result<Vec<IndexHit>>, o: Outcome<HitView>) -> bool {
    reports(r, o.fault) && (r is Ok ==> hit_views(r->Ok_0@) == o.emitted)
}

/// The hits of the index rows `[start, end)`.
pub fn collect_hits(p: &Postings, start: usize, end: usize, format: RowsetFormat) -> (r: Result<
    Vec<IndexHit>,
>)
    requires
        p@.aligned(p@.target_rgs.len()),
        end <= p@.target_rgs.len(),
    ensures
        answers(r, hits_in(p@, start as nat, end as nat, format)),
{
    let ghost whole = hits_in(p@, start as nat, end as nat, format);
    let mut out: Vec<IndexHit> = Vec::new();
    let mut i: usize = start;
    proof {
        assert(hit_views(out@) + whole.emitted =~= whole.emitted);
    }
    while i < end
        invariant
            start <= i,
            i <= end || i == start,
            p@.aligned(p@.target_rgs.len()),
            end <= p@.target_rgs.len(),
            whole == hits_in(p@, start as nat, end as nat, format),
            whole == hits_in(p@, i as nat, end as nat, format).after(hit_views(out@)),
        decreases end - i,
    {
        proof {
            assert(p@.rowsets[i as int] == p.rowsets@[i as int]@);
        }
        let rowset: Vec<u8> = match to_bitmap(p.rowsets[i].as_slice(), format) {
            Ok(b) => b,
            Err(e) => {
                return Err(e);
            },
        };
        let hit = IndexHit {
            row_group: as_u32(p.target_rgs[i] as i128),
            page: as_u32(p.target_pages[i] as i128),
            rowset,
        };
        let ghost before = out@;
        let ghost view = hit@;
        out.push(hit);
        proof {
            assert(hit_at(p@, i as int, format) == Ok::<HitView, Fault>(view));
            let rest = hits_in(p@, (i + 1) as nat, end as nat, format);
            assert(hit_views(out@) =~= hit_views(before).push(view));
            assert(hit_views(before) + (seq![view] + rest.emitted) =~= hit_views(out@)
                + rest.emitted);
        }
        i = i + 1;
    }
    proof {
        assert(whole.emitted =~= hit_views(out@));
    }
    Ok(out)
}

/// The number of leading values that a test accepts, where the values it
/// accepts all come first.
fn partition_point<K, F: Fn(&K) -> bool>(
    values: &Vec<K>,
    accepts: F,
    Ghost(accepted): Ghost<spec_fn(K) -> bool>,
) -> (n: usize)
    requires
        forall|v: K| #[trigger] call_requires(accepts, (&v,)),
        forall|v: K, b: bool| #[trigger] call_ensures(accepts, (&v,), b) ==> b == accepted(v),
    ensures
        n <= values@.len(),
        n > 0 ==> accepted(values@[n - 1]),
        n < values@.len() ==> !accepted(values@[n as int]),
{
    let mut lo: usize = 0;
    let mut hi: usize = values.len();
    while lo < hi
        invariant
            lo <= hi <= values@.len(),
            forall|v: K| #[trigger] call_requires(accepts, (&v,)),
            forall|v: K, b: bool| #[trigger] call_ensures(accepts, (&v,), b) ==> b == accepted(v),
            lo > 0 ==> accepted(values@[lo - 1]),
            hi < values@.len() ==> !accepted(values@[hi as int]),
        decreases hi - lo,
    {
        let mid: usize = lo + (hi - lo) / 2;
        let below: bool = accepts(&values[mid]);
        if below {
            lo = mid + 1;
        } else {
            hi = mid;
        }
    }
    lo
}

/// That `[start, end)` are the index rows with a key: none but such rows,
/// and where the keys are sorted, all of them.
pub open spec fn is_run(keys: Seq<SortKey>, key: SortKey, start: nat, end: nat) -> bool {
    &&& start <= end <= keys.len()
    &&& forall|i: int| start <= i < end ==> #[trigger] keys[i] == key
    &&& sorted(keys) ==> forall|i: int|
        0 <= i < keys.len() && !(start <= i < end) ==> #[trigger] keys[i] != key
}

/// That `[start, end)` are, where the keys are sorted, the index rows whose
/// keys lie between two, both counted.
pub open spec fn is_span(keys: Seq<SortKey>, lo: SortKey, hi: SortKey, start: nat, end: nat) -> bool {
    &&& start <= end <= keys.len()
    &&& sorted(keys) ==> forall|i: int|
        0 <= i < keys.len() ==> (start <= i < end) == (!key_before(#[trigger] keys[i], lo)
            && !key_before(hi, keys[i]))
}

/// The index rows with a key.
pub fn find_run<K: IndexKey>(values: &Vec<K>, target: &K) -> (r: (usize, usize))
    ensures
        is_run(value_keys(values@), target.key(), r.0 as nat, r.1 as nat),
{
    let ghost keys = value_keys(values@);
    let ghost key = target.key();
    let below = |v: &K| -> (b: bool)
        ensures
            b == key_before(v.key(), target.key()),
        { v.less(target) };
    let start: usize = partition_point(
        values,
        below,
        Ghost(|v: K| key_before(v.key(), target.key())),
    );
    let mut end: usize = start;
    while end < values.len() && values[end].same(target)
        invariant
            start <= end <= values@.len(),
            keys == value_keys(values@),
            key == target.key(),
            forall|i: int| start <= i < end ==> #[trigger] keys[i] == key,
        decreases values@.len() - end,
    {
        proof {
            assert(keys[end as int] == values@[end as int].key());
        }
        end = end + 1;
    }
    proof {
        if sorted(keys) {
            assert forall|i: int| 0 <= i < keys.len() && !(start <= i < end) implies #[trigger] keys[i]
                != key by {
                lemma_key_total(key, key);
                if i < start {
                    assert(keys[start - 1] == values@[start - 1].key());
                    if i < start - 1 {
                        assert(!key_before(keys[start - 1], keys[i]));
                    }
                } else {
                    assert(keys[end as int] == values@[end as int].key());
                    assert(keys[end as int] != key);
                    lemma_key_total(keys[end as int], key);
                    if start == end {
                        assert(!key_before(keys[end as int], key));
                    } else {
                        assert(keys[end - 1] == key);
                        assert(!key_before(keys[end as int], keys[end - 1]));
                    }
                    if i > end {
                        assert(!key_before(keys[i], keys[end as int]));
                    }
                }
            }
        }
    }
    (start, end)
}

/// The index rows whose keys lie between two.
pub fn find_span<K: IndexKey>(values: &Vec<K>, lo: &K, hi: &K) -> (r: (usize, usize))
    ensures
        is_span(value_keys(values@), lo.key(), hi.key(), r.0 as nat, r.1 as nat),
{
    let ghost keys = value_keys(values@);
    let below = |v: &K| -> (b: bool)
        ensures
            b == key_before(v.key(), lo.key()),
        { v.less(lo) };
    let start: usize = partition_point(
        values,
        below,
        Ghost(|v: K| key_before(v.key(), lo.key())),
    );
    let within = |v: &K| -> (b: bool)
        ensures
            b == !key_before(hi.key(), v.key()),
        { !hi.less(v) };
    let end: usize = partition_point(
        values,
        within,
        Ghost(|v: K| !key_before(hi.key(), v.key())),
    );
    proof {
        if sorted(keys) {
            assert forall|i: int| 0 <= i < keys.len() implies (start <= i < end) == (!key_before(
                #[trigger] keys[i],
                lo.key(),
            ) && !key_before(hi.key(), keys[i])) by {
                lemma_partition(keys, values@.len(), start as nat, lo.key(), i, true);
                lemma_partition(keys, values@.len(), end as nat, hi.key(), i, false);
            }
        }
    }
    if end < start {
        (start, start)
    } else {
        (start, end)
    }
}

/// In sorted keys, the position where a test turns parts the keys that pass
/// it from those that do not.
proof fn lemma_partition(keys: Seq<SortKey>, n: nat, at: nat, key: SortKey, i: int, strict: bool)
    requires
        sorted(keys),
        n == keys.len(),
        at <= n,
        0 <= i < n,
        strict ==> (at > 0 ==> key_before(keys[at - 1], key)),
        strict ==> (at < n ==> !key_before(keys[at as int], key)),
        !strict ==> (at > 0 ==> !key_before(key, keys[at - 1])),
        !strict ==> (at < n ==> key_before(key, keys[at as int])),
    ensures
        strict ==> (i < at) == key_before(keys[i], key),
        !strict ==> (i < at) == !key_before(key, keys[i]),
{
    if i < at {
        if i < at - 1 {
            assert(!key_before(keys[at - 1], keys[i]));
            lemma_key_total(keys[i], keys[at - 1]);
            lemma_key_total(keys[i], key);
            lemma_key_total(keys[at - 1], key);
            if key_before(keys[i], keys[at - 1]) && key_before(keys[at - 1], key) {
                lemma_key_transitive(keys[i], keys[at - 1], key);
            }
            if key_before(key, keys[i]) && key_before(keys[i], keys[at - 1]) {
                lemma_key_transitive(key, keys[i], keys[at - 1]);
            }
        }
    } else {
        if i > at {
            assert(!key_before(keys[i], keys[at as int]));
            lemma_key_total(keys[i], keys[at as int]);
            lemma_key_total(keys[i], key);
            lemma_key_total(keys[at as int], key);
            if key_before(keys[at as int], keys[i]) && key_before(keys[i], key) {
                lemma_key_transitive(keys[at as int], keys[i], key);
            }
            if key_before(key, keys[at as int]) && key_before(keys[at as int], keys[i]) {
                lemma_key_transitive(key, keys[at as int], keys[i]);
            }
        }
    }
}

} // verus!
