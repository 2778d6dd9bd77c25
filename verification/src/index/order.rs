//! Occurrences of keys in pages, sorted and gathered into index rows.

use vstd::prelude::*;

use crate::index::keys::{
    key_before, lemma_key_total, lemma_key_transitive, IndexKey, SortKey,
};

verus! {

/// A key at a row of a page of a row group.
pub struct Occurrence<K> {
    pub key: K,
    pub row_group: u32,
    pub page: u32,
    pub row: u32,
}

/// An occurrence, by its key.
pub struct Spot {
    pub key: SortKey,
    pub row_group: u32,
    pub page: u32,
    pub row: u32,
}

impl<K: IndexKey> Occurrence<K> {
    pub open spec fn spot(&self) -> Spot {
        Spot {
            key: self.key.key(),
            row_group: self.row_group,
            page: self.page,
            row: self.row,
        }
    }
}

/// Occurrences in order of key, row group, page and row.
pub open spec fn spot_before(a: Spot, b: Spot) -> bool {
    key_before(a.key, b.key) || (a.key == b.key && (a.row_group < b.row_group || (a.row_group
        == b.row_group && (a.page < b.page || (a.page == b.page && a.row < b.row)))))
}

pub proof fn lemma_spot_total(a: Spot, b: Spot)
    ensures
        a == b || spot_before(a, b) || spot_before(b, a),
        !(spot_before(a, b) && spot_before(b, a)),
        !spot_before(a, a),
{
    lemma_key_total(a.key, b.key);
}

pub proof fn lemma_spot_transitive(a: Spot, b: Spot, c: Spot)
    requires
        !spot_before(b, a),
        !spot_before(c, b),
    ensures
        !spot_before(c, a),
{
    lemma_spot_total(a, b);
    lemma_spot_total(b, c);
    lemma_spot_total(a, c);
    lemma_key_total(a.key, b.key);
    lemma_key_total(b.key, c.key);
    lemma_key_total(a.key, c.key);
    if key_before(a.key, b.key) && key_before(b.key, c.key) {
        lemma_key_transitive(a.key, b.key, c.key);
    }
}

fn spot_less<K: IndexKey>(a: &Occurrence<K>, b: &Occurrence<K>) -> (r: bool)
    ensures
        r == spot_before(a.spot(), b.spot()),
{
    if a.key.less(&b.key) {
        return true;
    }
    if !a.key.same(&b.key) {
        return false;
    }
    a.row_group < b.row_group || (a.row_group == b.row_group && (a.page < b.page || (a.page
        == b.page && a.row < b.row)))
}

/// That a list of positions goes through occurrences in order.
spec fn in_order<K: IndexKey>(occ: Seq<Occurrence<K>>, order: Seq<usize>) -> bool {
    &&& forall|i: int| 0 <= i < order.len() ==> #[trigger] order[i] < occ.len()
    &&& forall|i: int, j: int| #![trigger order[i], order[j]]
        0 <= i < j < order.len() ==> !spot_before(
            occ[order[j] as int].spot(),
            occ[order[i] as int].spot(),
        )
}

/// Merges two ordered lists of positions.
fn merge<K: IndexKey>(occ: &Vec<Occurrence<K>>, a: &Vec<usize>, b: &Vec<usize>) -> (out: Vec<usize>)
    requires
        in_order(occ@, a@),
        in_order(occ@, b@),
    ensures
        in_order(occ@, out@),
        forall|x: usize| #[trigger]
            out@.contains(x) == (a@.contains(x) || b@.contains(x)),
{
    let mut out: Vec<usize> = Vec::new();
    let mut i: usize = 0;
    let mut j: usize = 0;
    while i < a.len() || j < b.len()
        invariant
            i <= a@.len(),
            j <= b@.len(),
            in_order(occ@, a@),
            in_order(occ@, b@),
            in_order(occ@, out@),
            forall|k: int, m: int| #![trigger out@[k], a@[m]]
                0 <= k < out@.len() && i <= m < a@.len() ==> !spot_before(
                    occ@[a@[m] as int].spot(),
                    occ@[out@[k] as int].spot(),
                ),
            forall|k: int, m: int| #![trigger out@[k], b@[m]]
                0 <= k < out@.len() && j <= m < b@.len() ==> !spot_before(
                    occ@[b@[m] as int].spot(),
                    occ@[out@[k] as int].spot(),
                ),
            forall|x: usize| #[trigger]
                out@.contains(x) == (a@.take(i as int).contains(x) || b@.take(j as int).contains(x)),
        decreases (a@.len() - i) + (b@.len() - j),
    {
        let from_a: bool = if i == a.len() {
            false
        } else if j == b.len() {
            true
        } else {
            !spot_less(&occ[b[j]], &occ[a[i]])
        };
        let ghost before = out@;
        if from_a {
            let x: usize = a[i];
            out.push(x);
            proof {
                let sx = occ@[x as int].spot();
                assert(a@.take(i + 1) =~= a@.take(i as int).push(x));
                lemma_contains_push(before, x);
                lemma_contains_push(a@.take(i as int), x);
                assert forall|m: int| j <= m < b@.len() implies !spot_before(
                    occ@[#[trigger] b@[m] as int].spot(),
                    sx,
                ) by {
                    if m > j {
                        assert(b@[j as int] < occ@.len());
                        lemma_spot_transitive(
                            sx,
                            occ@[b@[j as int] as int].spot(),
                            occ@[b@[m] as int].spot(),
                        );
                    }
                }
                assert forall|m: int| i + 1 <= m < a@.len() implies !spot_before(
                    occ@[#[trigger] a@[m] as int].spot(),
                    sx,
                ) by {
                    assert(a@[i as int] == x);
                }
            }
            i = i + 1;
        } else {
            let x: usize = b[j];
            out.push(x);
            proof {
                let sx = occ@[x as int].spot();
                assert(b@.take(j + 1) =~= b@.take(j as int).push(x));
                lemma_contains_push(before, x);
                lemma_contains_push(b@.take(j as int), x);
                assert forall|m: int| i <= m < a@.len() implies !spot_before(
                    occ@[#[trigger] a@[m] as int].spot(),
                    sx,
                ) by {
                    assert(a@[i as int] < occ@.len());
                    lemma_spot_total(sx, occ@[a@[i as int] as int].spot());
                    if m > i {
                        lemma_spot_transitive(
                            sx,
                            occ@[a@[i as int] as int].spot(),
                            occ@[a@[m] as int].spot(),
                        );
                    }
                }
                assert forall|m: int| j + 1 <= m < b@.len() implies !spot_before(
                    occ@[#[trigger] b@[m] as int].spot(),
                    sx,
                ) by {
                    assert(b@[j as int] == x);
                }
            }
            j = j + 1;
        }
    }
    proof {
        assert(a@.take(i as int) =~= a@);
        assert(b@.take(j as int) =~= b@);
    }
    out
}

proof fn lemma_contains_push(s: Seq<usize>, x: usize)
    ensures
        forall|y: usize| #[trigger] s.push(x).contains(y) == (s.contains(y) || y == x),
{
    assert forall|y: usize| #[trigger] s.push(x).contains(y) == (s.contains(y) || y == x) by {
        if s.contains(y) {
            let i = choose|i: int| 0 <= i < s.len() && s[i] == y;
            assert(s.push(x)[i] == y);
        }
        if y == x {
            assert(s.push(x)[s.len() as int] == x);
        }
        if s.push(x).contains(y) {
            let i = choose|i: int| 0 <= i < s.push(x).len() && s.push(x)[i] == y;
            if i < s.len() {
                assert(s[i] == y);
            }
        }
    }
}

/// The positions `lo..hi` in the order of their occurrences.
fn sorted_positions<K: IndexKey>(occ: &Vec<Occurrence<K>>, lo: usize, hi: usize) -> (out: Vec<usize>)
    requires
        lo <= hi <= occ@.len(),
    ensures
        in_order(occ@, out@),
        forall|x: usize| #[trigger] out@.contains(x) == (lo <= x < hi),
    decreases hi - lo,
{
    let mut out: Vec<usize> = Vec::new();
    if lo == hi {
        return out;
    }
    if hi - lo == 1 {
        out.push(lo);
        proof {
            assert(out@ =~= Seq::<usize>::empty().push(lo));
            lemma_contains_push(Seq::<usize>::empty(), lo);
        }
        return out;
    }
    let mid: usize = lo + (hi - lo) / 2;
    let a: Vec<usize> = sorted_positions(occ, lo, mid);
    let b: Vec<usize> = sorted_positions(occ, mid, hi);
    merge(occ, &a, &b)
}

/// The rows of a page that share a key, ascending.
pub struct IndexRow<K> {
    pub key: K,
    pub row_group: u32,
    pub page: u32,
    pub positions: Vec<u32>,
}

/// An index row, by its key.
pub struct RowView {
    pub key: SortKey,
    pub row_group: u32,
    pub page: u32,
    pub positions: Seq<u32>,
}

impl<K: IndexKey> IndexRow<K> {
    pub open spec fn row(&self) -> RowView {
        RowView {
            key: self.key.key(),
            row_group: self.row_group,
            page: self.page,
            positions: self.positions@,
        }
    }
}

pub open spec fn rows_of<K: IndexKey>(rows: Seq<IndexRow<K>>) -> Seq<RowView> {
    rows.map_values(|r: IndexRow<K>| r.row())
}

pub open spec fn spots_of<K: IndexKey>(occ: Seq<Occurrence<K>>) -> Seq<Spot> {
    occ.map_values(|o: Occurrence<K>| o.spot())
}

/// Index rows in order of key, row group and page.
pub open spec fn row_before(a: RowView, b: RowView) -> bool {
    key_before(a.key, b.key) || (a.key == b.key && (a.row_group < b.row_group || (a.row_group
        == b.row_group && a.page < b.page)))
}

/// That a row stands for an occurrence.
pub open spec fn stands_for(row: RowView, s: Spot) -> bool {
    row.key == s.key && row.row_group == s.row_group && row.page == s.page && row.positions.contains(
        s.row,
    )
}

/// That some row stands for an occurrence.
pub open spec fn recorded(rows: Seq<RowView>, s: Spot) -> bool {
    exists|i: int| 0 <= i < rows.len() && stands_for(#[trigger] rows[i], s)
}

/// That positions are ascending, without repetition, and not none.
pub open spec fn ascending(positions: Seq<u32>) -> bool {
    &&& positions.len() > 0
    &&& forall|i: int, j: int| #![trigger positions[i], positions[j]]
        0 <= i < j < positions.len() ==> positions[i] < positions[j]
}

/// That index rows are in order, one per key and page, each with its
/// positions in order.
pub open spec fn well_ordered(rows: Seq<RowView>) -> bool {
    &&& forall|i: int, j: int| #![trigger rows[i], rows[j]]
        0 <= i < j < rows.len() ==> row_before(rows[i], rows[j])
    &&& forall|i: int| 0 <= i < rows.len() ==> ascending((#[trigger] rows[i]).positions)
}

proof fn lemma_push_position(rows: Seq<RowView>, last: RowView, p: u32, new: Spot)
    requires
        well_ordered(rows.push(last)),
        last.key == new.key && last.row_group == new.row_group && last.page == new.page,
        new.row == p,
        last.positions.last() < p,
    ensures
        ({
            let grown = RowView { positions: last.positions.push(p), ..last };
            &&& well_ordered(rows.push(grown))
            &&& forall|s: Spot| #[trigger]
                recorded(rows.push(grown), s) == (recorded(rows.push(last), s) || s == new)
        }),
{
    let grown = RowView { positions: last.positions.push(p), ..last };
    let a = rows.push(last);
    let b = rows.push(grown);
    assert(a[rows.len() as int] == last);
    assert(ascending(last.positions));
    assert forall|i: int, j: int| #![trigger b[i], b[j]] 0 <= i < j < b.len() implies row_before(
        b[i],
        b[j],
    ) by {
        assert(a[i] == b[i]);
        assert(row_before(a[i], a[j]));
    }
    assert forall|i: int| 0 <= i < b.len() implies ascending((#[trigger] b[i]).positions) by {
        assert(ascending(a[i].positions));
        if i == rows.len() {
            let q = last.positions.push(p);
            assert forall|x: int, y: int| #![trigger q[x], q[y]] 0 <= x < y < q.len() implies q[x]
                < q[y] by {
                if y == last.positions.len() && x < last.positions.len() - 1 {
                    assert(last.positions[x] < last.positions[last.positions.len() - 1]);
                }
            }
        }
    }
    assert forall|s: Spot| #[trigger] recorded(b, s) == (recorded(a, s) || s == new) by {
        if recorded(b, s) {
            let i = choose|i: int| 0 <= i < b.len() && stands_for(#[trigger] b[i], s);
            if i < rows.len() {
                assert(stands_for(a[i], s));
            } else {
                let q = choose|q: int| 0 <= q < grown.positions.len() && grown.positions[q] == s.row;
                if q < last.positions.len() {
                    assert(last.positions[q] == s.row);
                    assert(stands_for(a[i], s));
                }
            }
        }
        if recorded(a, s) {
            let i = choose|i: int| 0 <= i < a.len() && stands_for(#[trigger] a[i], s);
            if i < rows.len() {
                assert(stands_for(b[i], s));
            } else {
                let q = choose|q: int| 0 <= q < last.positions.len() && last.positions[q] == s.row;
                assert(grown.positions[q] == s.row);
                assert(stands_for(b[i], s));
            }
        }
        if s == new {
            assert(grown.positions[last.positions.len() as int] == p);
            assert(stands_for(b[rows.len() as int], s));
        }
    }
}

proof fn lemma_push_row(rows: Seq<RowView>, fresh: RowView, new: Spot)
    requires
        well_ordered(rows),
        fresh.key == new.key && fresh.row_group == new.row_group && fresh.page == new.page,
        fresh.positions == seq![new.row],
        rows.len() > 0 ==> row_before(rows.last(), fresh),
    ensures
        well_ordered(rows.push(fresh)),
        forall|s: Spot| #[trigger]
            recorded(rows.push(fresh), s) == (recorded(rows, s) || s == new),
{
    let b = rows.push(fresh);
    assert forall|i: int, j: int| #![trigger b[i], b[j]] 0 <= i < j < b.len() implies row_before(
        b[i],
        b[j],
    ) by {
        if j == rows.len() && i < rows.len() - 1 {
            assert(row_before(rows[i], rows[rows.len() - 1]));
            lemma_key_total(rows[i].key, rows.last().key);
            lemma_key_total(rows.last().key, fresh.key);
            if key_before(rows[i].key, rows.last().key) && key_before(rows.last().key, fresh.key) {
                lemma_key_transitive(rows[i].key, rows.last().key, fresh.key);
            }
        }
    }
    assert forall|s: Spot| #[trigger] recorded(b, s) == (recorded(rows, s) || s == new) by {
        if recorded(b, s) {
            let i = choose|i: int| 0 <= i < b.len() && stands_for(#[trigger] b[i], s);
            if i < rows.len() {
                assert(stands_for(rows[i], s));
            }
        }
        if recorded(rows, s) {
            let i = choose|i: int| 0 <= i < rows.len() && stands_for(#[trigger] rows[i], s);
            assert(stands_for(b[i], s));
        }
        if s == new {
            assert(fresh.positions[0] == new.row);
            assert(stands_for(b[rows.len() as int], s));
        }
    }
}

/// Gathers occurrences into index rows: one per key and page, in order.
pub fn gather<K: IndexKey>(occ: &Vec<Occurrence<K>>) -> (rows: Vec<IndexRow<K>>)
    ensures
        well_ordered(rows_of(rows@)),
        forall|s: Spot| #[trigger]
            recorded(rows_of(rows@), s) == spots_of(occ@).contains(s),
{
    let order: Vec<usize> = sorted_positions(occ, 0, occ.len());
    let ghost spots = spots_of(occ@);
    let mut rows: Vec<IndexRow<K>> = Vec::new();
    let mut k: usize = 0;
    proof {
        assert(forall|s: Spot| !recorded(rows_of(rows@), s));
    }
    while k < order.len()
        invariant
            k <= order@.len(),
            in_order(occ@, order@),
            well_ordered(rows_of(rows@)),
            (k == 0) == (rows@.len() == 0),
            k > 0 ==> ({
                let last = rows@.last().row();
                let s = occ@[order@[k - 1] as int].spot();
                last.key == s.key && last.row_group == s.row_group && last.page == s.page
                    && last.positions.last() == s.row
            }),
            forall|s: Spot| #[trigger]
                recorded(rows_of(rows@), s) == (exists|i: int|
                    0 <= i < k && occ@[#[trigger] order@[i] as int].spot() == s),
        decreases order@.len() - k,
    {
        assert(order@[k as int] < occ@.len());
        let o = &occ[order[k]];
        let ghost new = o.spot();
        let ghost before = rows_of(rows@);
        proof {
            if k > 0 {
                let prev = occ@[order@[k - 1] as int].spot();
                assert(!spot_before(new, prev));
                lemma_spot_total(prev, new);
                assert(rows_of(rows@).last() == rows@.last().row());
            }
        }
        let n: usize = rows.len();
        let same_page: bool = n > 0 && rows[n - 1].key.same(&o.key) && rows[n - 1].row_group
            == o.row_group && rows[n - 1].page == o.page;
        if same_page {
            let m: usize = rows[n - 1].positions.len();
            proof {
                assert(ascending(before[n - 1].positions));
            }
            if rows[n - 1].positions[m - 1] != o.row {
                let ghost head = before.drop_last();
                let ghost last = before.last();
                proof {
                    assert(before =~= head.push(last));
                    lemma_push_position(head, last, o.row, new);
                }
                match rows.pop() {
                    Some(mut top) => {
                        top.positions.push(o.row);
                        rows.push(top);
                    },
                    None => {},
                }
                proof {
                    let grown = RowView { positions: last.positions.push(o.row), ..last };
                    assert(rows_of(rows@) =~= head.push(grown));
                }
            } else {
                proof {
                    let prev = occ@[order@[k - 1] as int].spot();
                    assert(prev == new);
                    assert(recorded(before, new));
                }
            }
        } else {
            let mut positions: Vec<u32> = Vec::new();
            positions.push(o.row);
            let fresh = IndexRow {
                key: o.key.duplicate(),
                row_group: o.row_group,
                page: o.page,
                positions,
            };
            proof {
                assert(positions@ =~= seq![new.row]);
                lemma_push_row(before, fresh.row(), new);
            }
            rows.push(fresh);
            proof {
                assert(rows_of(rows@) =~= before.push(rows@.last().row()));
            }
        }
        proof {
            assert forall|s: Spot| #[trigger] recorded(rows_of(rows@), s) == (exists|i: int|
                0 <= i < k + 1 && occ@[#[trigger] order@[i] as int].spot() == s) by {
                assert(recorded(rows_of(rows@), s) == (recorded(before, s) || s == new));
                if recorded(before, s) {
                    let i = choose|i: int|
                        0 <= i < k && occ@[#[trigger] order@[i] as int].spot() == s;
                    assert(0 <= i < k + 1 && occ@[order@[i] as int].spot() == s);
                }
                if s == new {
                    assert(occ@[order@[k as int] as int].spot() == s);
                }
            }
        }
        k = k + 1;
    }
    proof {
        assert forall|s: Spot| #[trigger] recorded(rows_of(rows@), s) == spots.contains(s) by {
            if recorded(rows_of(rows@), s) {
                let i = choose|i: int| 0 <= i < k && occ@[#[trigger] order@[i] as int].spot() == s;
                assert(spots[order@[i] as int] == s);
            }
            if spots.contains(s) {
                let x = choose|x: int| 0 <= x < spots.len() && spots[x] == s;
                assert(order@.contains(x as usize));
                let i = choose|i: int| 0 <= i < order@.len() && order@[i] == x as usize;
                assert(occ@[order@[i] as int].spot() == s);
            }
        }
    }
    rows
}

} // verus!
