//! What an index answers, against what its source holds.

use vstd::prelude::*;

use crate::bits::{bit, lemma_pack_holds, pack};
use crate::column::masked;
use crate::error::{Fault, Outcome};
use crate::index::builder::{
    indexes_file, lemma_page_rows_small, occurs, page_rows, KeySource,
};
use crate::index::file::ParquetFile;
use crate::index::keys::{key_before, lemma_key_total, SortKey};
use crate::index::lookup::{hit_at, hits_in, is_run, is_span, sorted, PostingsView};
use crate::index::materialize::{
    assembled, group_rows, hit_names, leaf_named, least_group, lemma_least_group, row_named,
    selected_values, stray_page, Reach,
};
use crate::index::order::{recorded, row_before, stands_for, well_ordered, RowView, Spot};
use crate::index::page_layout::{
    contiguous, law_pages_share_out_rows, layouts, total_rows, DataPageLayout,
};
use crate::index::query::{anchor, Target};
use crate::index::rowset::{law_tagged_round_trip, marked, tagged, RowsetFormat};
use crate::index::types::HitView;
use crate::wrap::{low32, wrap32};

verus! {

/// For each row group, the values of a column.
pub type Values<T> = spec_fn(nat) -> std::result::Result<Seq<T>, Fault>;

/// That every row group of a file has as many rows as it says, page by page,
/// in a column with these keys.
pub open spec fn whole(file: ParquetFile, column: nat, source: KeySource) -> bool {
    &&& file.row_groups@.len() <= 0x1_0000_0000
    &&& forall|g: nat| g < file.row_groups@.len() ==> #[trigger] group_whole(file, column, source, g)
}

/// That a row group has as many rows as it says, page by page.
pub open spec fn group_whole(file: ParquetFile, column: nat, source: KeySource, g: nat) -> bool {
    &&& source(g) is Ok
    &&& layouts(file, g, column).fault is None
    &&& total_rows(layouts(file, g, column).emitted) == source(g)->Ok_0.len()
    &&& file.row_groups@[g as int].num_rows == source(g)->Ok_0.len()
    &&& source(g)->Ok_0.len() <= usize::MAX
}

/// That a column can be read, with no more values in a row group than it has
/// rows.
pub open spec fn readable<T>(file: ParquetFile, values: Values<T>) -> bool {
    forall|g: nat|
        g < file.row_groups@.len() ==> (#[trigger] values(g)) is Ok && values(g)->Ok_0.len()
            <= file.row_groups@[g as int].num_rows
}

/// The values of the row groups `[from, n)` in the rows of masks.
pub open spec fn kept<T>(values: Values<T>, mask: spec_fn(nat) -> Seq<bool>, from: nat, n: nat) -> Seq<
    T,
>
    decreases n - from,
{
    if from >= n {
        Seq::empty()
    } else {
        masked(values(from)->Ok_0, mask(from)) + kept(values, mask, from + 1, n)
    }
}

/// That a row has a key that is wanted.
pub open spec fn row_wanted(keys: Seq<SortKey>, wanted: spec_fn(SortKey) -> bool) -> bool {
    exists|i: int| 0 <= i < keys.len() && wanted(#[trigger] keys[i])
}

/// For each row group, the rows that have a wanted key.
pub open spec fn wanted_rows(source: KeySource, wanted: spec_fn(SortKey) -> bool) -> spec_fn(
    nat,
) -> Seq<bool> {
    |g: nat|
        Seq::new(
            source(g)->Ok_0.len(),
            |r: int| row_wanted(source(g)->Ok_0[r], wanted),
        )
}

/// That stored index rows are the given ones.
pub open spec fn holds_index(
    keys: Seq<SortKey>,
    p: PostingsView,
    rows: Seq<RowView>,
    file: ParquetFile,
    column: nat,
) -> bool {
    &&& keys == rows.map_values(|r: RowView| r.key)
    &&& p.target_rgs == rows.map_values(|r: RowView| wrap32(r.row_group as int))
    &&& p.target_pages == rows.map_values(|r: RowView| wrap32(r.page as int))
    &&& p.rowsets == rows.map_values(
        |r: RowView| tagged(r.positions, page_rows(file, column, r.row_group, r.page)),
    )
}

/// The hit of an index row.
pub open spec fn hit_of(row: RowView, file: ParquetFile, column: nat) -> HitView {
    HitView {
        row_group: row.row_group,
        page: row.page,
        rowset: pack(marked(row.positions, page_rows(file, column, row.row_group, row.page))),
    }
}

/// The keys of well-ordered index rows are sorted.
pub proof fn law_index_is_sorted(rows: Seq<RowView>)
    requires
        well_ordered(rows),
    ensures
        sorted(rows.map_values(|r: RowView| r.key)),
{
    let keys = rows.map_values(|r: RowView| r.key);
    assert forall|i: int, j: int| #![trigger keys[i], keys[j]]
        0 <= i < j < keys.len() implies !key_before(keys[j], keys[i]) by {
        assert(keys[i] == rows[i].key && keys[j] == rows[j].key);
        lemma_key_total(rows[i].key, rows[j].key);
    }
}

/// An index row points at a page of the source and at rows within it.
proof fn lemma_row_inside(
    rows: Seq<RowView>,
    file: ParquetFile,
    column: nat,
    source: KeySource,
    i: int,
)
    requires
        indexes_file(rows, file, column, source),
        0 <= i < rows.len(),
    ensures
        rows[i].row_group < file.row_groups@.len(),
        rows[i].page < layouts(file, rows[i].row_group as nat, column).emitted.len(),
        page_rows(file, column, rows[i].row_group, rows[i].page) <= i32::MAX,
        forall|j: int|
            0 <= j < rows[i].positions.len() ==> #[trigger] rows[i].positions[j] < page_rows(
                file,
                column,
                rows[i].row_group,
                rows[i].page,
            ),
{
    let row = rows[i];
    lemma_page_rows_small(file, row.row_group as nat, column);
    assert forall|j: int| 0 <= j < row.positions.len() implies #[trigger] row.positions[j]
        < page_rows(file, column, row.row_group, row.page) && row.row_group
        < file.row_groups@.len() && row.page < layouts(
        file,
        row.row_group as nat,
        column,
    ).emitted.len() by {
        let s = Spot {
            key: row.key,
            row_group: row.row_group,
            page: row.page,
            row: row.positions[j],
        };
        assert(stands_for(rows[i], s));
        assert(recorded(rows, s));
        assert(occurs(file, column, source, s));
    }
    assert(row.positions.len() > 0);
    assert(row.positions[0] < page_rows(file, column, row.row_group, row.page));
}

/// A number comes back from its signed form.
proof fn lemma_low_of_wrap(x: u32)
    ensures
        low32(wrap32(x as int) as int) == x,
{
}

/// The hit of a stored index row is that of the row.
proof fn lemma_hit(
    keys: Seq<SortKey>,
    p: PostingsView,
    rows: Seq<RowView>,
    file: ParquetFile,
    column: nat,
    i: int,
)
    requires
        holds_index(keys, p, rows, file, column),
        0 <= i < rows.len(),
        page_rows(file, column, rows[i].row_group, rows[i].page) <= i32::MAX,
        forall|j: int|
            0 <= j < rows[i].positions.len() ==> #[trigger] rows[i].positions[j] < page_rows(
                file,
                column,
                rows[i].row_group,
                rows[i].page,
            ),
    ensures
        hit_at(p, i, RowsetFormat::V2Tagged) == Ok::<HitView, Fault>(
            hit_of(rows[i], file, column),
        ),
{
    let row = rows[i];
    let n = page_rows(file, column, row.row_group, row.page);
    law_tagged_round_trip(row.positions, n);
    lemma_low_of_wrap(row.row_group);
    lemma_low_of_wrap(row.page);
    assert(p.rowsets[i] == tagged(row.positions, n));
    assert(p.target_rgs[i] == wrap32(row.row_group as int));
    assert(p.target_pages[i] == wrap32(row.page as int));
}

/// The hits of stored index rows are those of the rows.
proof fn lemma_hits(
    keys: Seq<SortKey>,
    p: PostingsView,
    rows: Seq<RowView>,
    file: ParquetFile,
    column: nat,
    source: KeySource,
    start: nat,
    end: nat,
)
    requires
        indexes_file(rows, file, column, source),
        holds_index(keys, p, rows, file, column),
        start <= end <= rows.len(),
    ensures
        hits_in(p, start, end, RowsetFormat::V2Tagged).fault is None,
        hits_in(p, start, end, RowsetFormat::V2Tagged).emitted == hits_of(
            rows,
            file,
            column,
            start,
            end,
        ),
    decreases end - start,
{
    let all = hits_of(rows, file, column, start, end);
    if start < end {
        let i = start as int;
        lemma_row_inside(rows, file, column, source, i);
        lemma_hit(keys, p, rows, file, column, i);
        lemma_hits(keys, p, rows, file, column, source, start + 1, end);
        let rest = hits_of(rows, file, column, start + 1, end);
        assert(seq![hit_of(rows[i], file, column)] + rest =~= all);
    } else {
        assert(all =~= Seq::empty());
    }
}

/// Every row lies in a page.
pub proof fn lemma_page_of(pages: Seq<DataPageLayout>, r: nat) -> (p: int)
    requires
        contiguous(pages, 0, 0),
        r < total_rows(pages),
    ensures
        0 <= p < pages.len(),
        pages[p].first_row <= r < pages[p].first_row + pages[p].num_values,
    decreases pages.len(),
{
    let last = pages.len() - 1;
    let head = pages.drop_last();
    assert(contiguous(head, 0, 0)) by {
        assert forall|i: int| 0 <= i < head.len() implies (#[trigger] head[i]).page_idx == i by {
            assert(head[i] == pages[i]);
        }
        assert forall|i: int| 0 < i < head.len() implies (#[trigger] head[i]).first_row == head[i
            - 1].first_row + head[i - 1].num_values by {
            assert(head[i] == pages[i] && head[i - 1] == pages[i - 1]);
        }
    }
    lemma_end_of_pages(pages);
    if r < total_rows(head) {
        let p = lemma_page_of(head, r);
        assert(head[p] == pages[p]);
        p
    } else {
        lemma_end_of_pages(head);
        if head.len() > 0 {
            assert(head[last - 1] == pages[last - 1]);
            assert(pages[last].first_row == pages[last - 1].first_row + pages[last - 1].num_values);
        }
        last
    }
}

/// The last page ends where the rows end.
proof fn lemma_end_of_pages(pages: Seq<DataPageLayout>)
    requires
        contiguous(pages, 0, 0),
    ensures
        pages.len() > 0 ==> pages.last().first_row + pages.last().num_values == total_rows(pages),
    decreases pages.len(),
{
    if pages.len() > 0 {
        let head = pages.drop_last();
        let last = pages.len() - 1;
        assert(contiguous(head, 0, 0)) by {
            assert forall|i: int| 0 <= i < head.len() implies (#[trigger] head[i]).page_idx
                == i by {
                assert(head[i] == pages[i]);
            }
            assert forall|i: int| 0 < i < head.len() implies (#[trigger] head[i]).first_row
                == head[i - 1].first_row + head[i - 1].num_values by {
                assert(head[i] == pages[i] && head[i - 1] == pages[i - 1]);
            }
        }
        lemma_end_of_pages(head);
        if head.len() > 0 {
            assert(head.last() == pages[last - 1]);
            assert(pages[last].first_row == pages[last - 1].first_row + pages[last - 1].num_values);
        } else {
            assert(total_rows(head) == 0);
            assert(pages[0].first_row == 0);
        }
        assert(total_rows(pages) == total_rows(head) + pages[last].num_values);
    }
}

/// The hits of the index rows `[start, end)`.
pub open spec fn hits_of(
    rows: Seq<RowView>,
    file: ParquetFile,
    column: nat,
    start: nat,
    end: nat,
) -> Seq<HitView> {
    Seq::new((end - start) as nat, |k: int| hit_of(rows[start + k], file, column))
}

/// A row that a hit names has the hit's key.
proof fn lemma_named_is_wanted(
    rows: Seq<RowView>,
    file: ParquetFile,
    column: nat,
    source: KeySource,
    wanted: spec_fn(SortKey) -> bool,
    start: nat,
    end: nat,
    g: nat,
    r: nat,
)
    requires
        indexes_file(rows, file, column, source),
        group_whole(file, column, source, g),
        g < file.row_groups@.len() <= 0x1_0000_0000,
        start <= end <= rows.len(),
        forall|i: int|
            0 <= i < rows.len() ==> (start <= i < end) == wanted((#[trigger] rows[i]).key),
        r < source(g)->Ok_0.len(),
        row_named(
            hits_of(rows, file, column, start, end),
            (end - start) as nat,
            g as u32,
            layouts(file, g, column).emitted,
            Reach::Rows,
            r,
        ),
    ensures
        row_wanted(source(g)->Ok_0[r as int], wanted),
{
    let hits = hits_of(rows, file, column, start, end);
    let pages = layouts(file, g, column).emitted;
    let keys = source(g)->Ok_0[r as int];
    let k = choose|k: int|
        0 <= k < end - start && (#[trigger] hits[k]).row_group == g as u32 && hit_names(
            hits[k],
            pages[hits[k].page as int],
            Reach::Rows,
            r,
        );
    let row = rows[start + k];
    assert(hits[k] == hit_of(row, file, column));
    lemma_row_inside(rows, file, column, source, start + k);
    let page = pages[row.page as int];
    let n = page_rows(file, column, row.row_group, row.page);
    lemma_pack_holds(marked(row.positions, n));
    let at = (r - page.first_row) as nat;
    assert(bit(pack(marked(row.positions, n)), at) == 1);
    assert(at < n && marked(row.positions, n)[at as int]);
    let s = Spot { key: row.key, row_group: row.row_group, page: row.page, row: at as u32 };
    assert(stands_for(rows[start + k], s));
    assert(recorded(rows, s));
    assert(occurs(file, column, source, s));
    assert(source(g)->Ok_0[page.first_row + at] == keys);
    assert(keys.contains(row.key));
    let i = choose|i: int| 0 <= i < keys.len() && keys[i] == row.key;
    assert(wanted(rows[start + k].key));
    assert(wanted(keys[i]));
}

/// A row's key occurs where the row lies.
proof fn lemma_spot_of(file: ParquetFile, column: nat, source: KeySource, g: nat, r: nat, i: int) -> (s:
    Spot)
    requires
        group_whole(file, column, source, g),
        g < file.row_groups@.len() <= 0x1_0000_0000,
        r < source(g)->Ok_0.len(),
        0 <= i < source(g)->Ok_0[r as int].len(),
    ensures
        occurs(file, column, source, s),
        s.key == source(g)->Ok_0[r as int][i],
        s.row_group == g,
        s.page < layouts(file, g, column).emitted.len(),
        layouts(file, g, column).emitted[s.page as int].first_row + s.row == r,
{
    let pages = layouts(file, g, column).emitted;
    let keys = source(g)->Ok_0[r as int];
    law_pages_share_out_rows(file, g, column);
    lemma_page_rows_small(file, g, column);
    let p = lemma_page_of(pages, r);
    assert(pages[p].page_idx == p);
    let at = (r - pages[p].first_row) as nat;
    let s = Spot { key: keys[i], row_group: g as u32, page: p as u32, row: at as u32 };
    assert(source(g)->Ok_0[pages[p].first_row + at] == keys);
    assert(keys.contains(keys[i]));
    s
}

/// A row that has a wanted key is named by a hit.
proof fn lemma_wanted_is_named(
    rows: Seq<RowView>,
    file: ParquetFile,
    column: nat,
    source: KeySource,
    wanted: spec_fn(SortKey) -> bool,
    start: nat,
    end: nat,
    g: nat,
    r: nat,
)
    requires
        indexes_file(rows, file, column, source),
        group_whole(file, column, source, g),
        g < file.row_groups@.len() <= 0x1_0000_0000,
        start <= end <= rows.len(),
        forall|i: int|
            0 <= i < rows.len() ==> (start <= i < end) == wanted((#[trigger] rows[i]).key),
        r < source(g)->Ok_0.len(),
        row_wanted(source(g)->Ok_0[r as int], wanted),
    ensures
        row_named(
            hits_of(rows, file, column, start, end),
            (end - start) as nat,
            g as u32,
            layouts(file, g, column).emitted,
            Reach::Rows,
            r,
        ),
{
    let hits = hits_of(rows, file, column, start, end);
    let pages = layouts(file, g, column).emitted;
    let keys = source(g)->Ok_0[r as int];
    let i = choose|i: int| 0 <= i < keys.len() && wanted(#[trigger] keys[i]);
    let s = lemma_spot_of(file, column, source, g, r, i);
    assert(recorded(rows, s));
    let q = choose|q: int| 0 <= q < rows.len() && stands_for(#[trigger] rows[q], s);
    assert(wanted(rows[q].key));
    let n = page_rows(file, column, s.row_group, s.page);
    let at = s.row as nat;
    lemma_pack_holds(marked(rows[q].positions, n));
    assert(marked(rows[q].positions, n)[at as int]);
    assert(bit(pack(marked(rows[q].positions, n)), at) == 1);
    assert(hits[q - start] == hit_of(rows[q], file, column));
    assert(hit_names(hits[q - start], pages[s.page as int], Reach::Rows, r));
}

/// A lookup names exactly the rows of the source that have a wanted key.
pub proof fn law_lookup_names_the_rows(
    rows: Seq<RowView>,
    keys: Seq<SortKey>,
    p: PostingsView,
    file: ParquetFile,
    column: nat,
    source: KeySource,
    wanted: spec_fn(SortKey) -> bool,
    start: nat,
    end: nat,
    g: nat,
    r: nat,
)
    requires
        indexes_file(rows, file, column, source),
        holds_index(keys, p, rows, file, column),
        group_whole(file, column, source, g),
        g < file.row_groups@.len() <= 0x1_0000_0000,
        start <= end <= keys.len(),
        forall|i: int| 0 <= i < keys.len() ==> (start <= i < end) == wanted(#[trigger] keys[i]),
        r < source(g)->Ok_0.len(),
    ensures
        hits_in(p, start, end, RowsetFormat::V2Tagged).fault is None,
        row_named(
            hits_in(p, start, end, RowsetFormat::V2Tagged).emitted,
            (end - start) as nat,
            g as u32,
            layouts(file, g, column).emitted,
            Reach::Rows,
            r,
        ) == row_wanted(source(g)->Ok_0[r as int], wanted),
{
    lemma_hits(keys, p, rows, file, column, source, start, end);
    assert forall|i: int| 0 <= i < rows.len() implies (start <= i < end) == wanted(
        (#[trigger] rows[i]).key,
    ) by {
        assert(keys[i] == rows[i].key);
    }
    if row_wanted(source(g)->Ok_0[r as int], wanted) {
        lemma_wanted_is_named(rows, file, column, source, wanted, start, end, g, r);
    } else if row_named(
        hits_of(rows, file, column, start, end),
        (end - start) as nat,
        g as u32,
        layouts(file, g, column).emitted,
        Reach::Rows,
        r,
    ) {
        lemma_named_is_wanted(rows, file, column, source, wanted, start, end, g, r);
    }
}

// ---- Row groups ----

/// No page of a hit is missing.
proof fn lemma_no_stray(hits: Seq<HitView>, rg: u32, pages: nat, reach: Reach, from: nat)
    requires
        forall|k: int|
            0 <= k < hits.len() && (#[trigger] hits[k]).row_group == rg ==> hits[k].page < pages,
    ensures
        stray_page(hits, rg, pages, reach, from) is None,
    decreases hits.len() - from,
{
    if from < hits.len() {
        lemma_no_stray(hits, rg, pages, reach, from + 1);
    }
}

/// For each row group, the rows that hits name.
pub open spec fn named_rows(
    file: ParquetFile,
    column: nat,
    hits: Seq<HitView>,
    reach: Reach,
) -> spec_fn(nat) -> Seq<bool> {
    |g: nat|
        Seq::new(
            file.row_groups@[g as int].num_rows as nat,
            |r: int|
                row_named(
                    hits,
                    hits.len(),
                    g as u32,
                    layouts(file, g, column).emitted,
                    reach,
                    r as nat,
                ),
        )
}

/// That hits name pages that are there.
pub open spec fn well_aimed(file: ParquetFile, column: nat, hits: Seq<HitView>) -> bool {
    forall|k: int|
        0 <= k < hits.len() ==> (#[trigger] hits[k]).row_group < file.row_groups@.len()
            && hits[k].page < layouts(file, hits[k].row_group as nat, column).emitted.len()
}

proof fn lemma_none_masked<T>(values: Seq<T>, mask: Seq<bool>)
    requires
        values.len() <= mask.len(),
        forall|r: int| 0 <= r < mask.len() ==> !#[trigger] mask[r],
    ensures
        masked(values, mask) == Seq::<T>::empty(),
    decreases values.len(),
{
    if values.len() > 0 {
        lemma_none_masked(values.drop_last(), mask);
    }
}

/// A least row group stays the least until it is passed.
proof fn lemma_least_skips(hits: Seq<HitView>, from: nat)
    requires
        least_group(hits, from) matches Some(g) ==> g != from,
    ensures
        least_group(hits, from + 1) == least_group(hits, from),
{
    lemma_least_group(hits, from);
    lemma_least_group(hits, from + 1);
    match (least_group(hits, from), least_group(hits, from + 1)) {
        (Some(a), Some(b)) => {
            let i = choose|k: int| 0 <= k < hits.len() && (#[trigger] hits[k]).row_group == a;
            let j = choose|k: int| 0 <= k < hits.len() && (#[trigger] hits[k]).row_group == b;
            assert(hits[i].row_group >= b);
            assert(hits[j].row_group >= a);
        },
        (Some(a), None) => {
            let i = choose|k: int| 0 <= k < hits.len() && (#[trigger] hits[k]).row_group == a;
            assert(hits[i].row_group < from + 1);
        },
        (None, Some(b)) => {
            let j = choose|k: int| 0 <= k < hits.len() && (#[trigger] hits[k]).row_group == b;
            assert(hits[j].row_group < from);
        },
        (None, None) => {},
    }
}

/// A choice among the rows of a row group.
pub type Choice = spec_fn(nat, Seq<bool>) -> Seq<bool>;

/// That a choice takes no row that was not there.
pub open spec fn narrowing(cut: Choice) -> bool {
    forall|g: nat, rows: Seq<bool>|
        {
            &&& (#[trigger] cut(g, rows)).len() == rows.len()
            &&& forall|r: int| 0 <= r < rows.len() && #[trigger] cut(g, rows)[r] ==> rows[r]
        }
}

/// Row groups with a choice of their rows.
pub open spec fn cut_groups(groups: Seq<(u32, Seq<bool>)>, cut: Choice) -> Seq<(u32, Seq<bool>)> {
    groups.map_values(|p: (u32, Seq<bool>)| (p.0, cut(p.0 as nat, p.1)))
}

/// For each row group, a choice of the rows that hits name.
pub open spec fn cut_rows(mask: spec_fn(nat) -> Seq<bool>, cut: Choice) -> spec_fn(nat) -> Seq<
    bool,
> {
    |g: nat| cut(g, mask(g))
}

/// What is read for a choice of the rows that hits name is what those rows
/// hold, row group by row group.
pub proof fn lemma_read_cut<T>(
    file: ParquetFile,
    column: nat,
    source: KeySource,
    hits: Seq<HitView>,
    reach: Reach,
    cut: Choice,
    target_column: nat,
    values: Values<T>,
    from: nat,
)
    requires
        whole(file, column, source),
        readable(file, values),
        well_aimed(file, column, hits),
        narrowing(cut),
    ensures
        assembled(file, column, hits, reach, from).fault is None,
        forall|k: int|
            0 <= k < assembled(file, column, hits, reach, from).emitted.len() ==> {
                let p = #[trigger] assembled(file, column, hits, reach, from).emitted[k];
                p.0 < file.row_groups@.len() && p.1.len()
                    == file.row_groups@[p.0 as int].num_rows
            },
        ({
            let read = selected_values(
                cut_groups(assembled(file, column, hits, reach, from).emitted, cut),
                target_column,
                values,
            );
            &&& read.fault is None
            &&& read.emitted == kept(
                values,
                cut_rows(named_rows(file, column, hits, reach), cut),
                from,
                file.row_groups@.len(),
            )
        }),
    decreases 0x1_0000_0000 - from,
{
    let n = file.row_groups@.len();
    let mask = named_rows(file, column, hits, reach);
    let exact = cut_rows(mask, cut);
    lemma_least_group(hits, from);
    if from >= n {
        if let Some(g) = least_group(hits, from) {
            let i = choose|k: int| 0 <= k < hits.len() && (#[trigger] hits[k]).row_group == g;
            assert(hits[i].row_group < n);
        }
        assert(cut_groups(assembled(file, column, hits, reach, from).emitted, cut)
            =~= Seq::empty());
        return ;
    }
    assert(group_whole(file, column, source, from));
    assert(values(from) is Ok);
    lemma_read_cut(file, column, source, hits, reach, cut, target_column, values, from + 1);
    let rest = assembled(file, column, hits, reach, from + 1).emitted;
    let all = assembled(file, column, hits, reach, from).emitted;
    assert(exact(from) == cut(from, mask(from)));
    assert(cut(from, mask(from)).len() == mask(from).len());
    if least_group(hits, from) == Some(from as u32) {
        let g = from as u32;
        let pages = layouts(file, from, column).emitted;
        lemma_no_stray(hits, g, pages.len(), reach, 0);
        assert(group_rows(file, column, hits, reach, g)->Ok_0 =~= mask(from));
        assert(group_rows(file, column, hits, reach, g) == Ok::<Seq<bool>, Fault>(mask(from)));
        assert(all == seq![(g, mask(from))] + rest);
        let cuts = cut_groups(all, cut);
        assert(cuts[0] == (g, exact(from)));
        assert(cuts.skip(1) =~= cut_groups(rest, cut));
        assert forall|k: int| 0 <= k < all.len() implies {
            let p = #[trigger] all[k];
            p.0 < n && p.1.len() == file.row_groups@[p.0 as int].num_rows
        } by {
            if k > 0 {
                assert(all[k] == rest[k - 1]);
            }
        }
    } else {
        lemma_least_skips(hits, from);
        assert(assembled(file, column, hits, reach, from) == assembled(
            file,
            column,
            hits,
            reach,
            from + 1,
        ));
        lemma_unnamed_group(file, column, hits, reach, from);
        assert forall|r: int| 0 <= r < exact(from).len() implies !#[trigger] exact(from)[r] by {
            if cut(from, mask(from))[r] {
                assert(mask(from)[r]);
            }
        }
        lemma_none_masked(values(from)->Ok_0, exact(from));
        let tail = kept(values, exact, from + 1, n);
        assert(Seq::<T>::empty() + tail =~= tail);
    }
}

/// Hits name no row of a row group that is not the least of those left.
proof fn lemma_unnamed_group(
    file: ParquetFile,
    column: nat,
    hits: Seq<HitView>,
    reach: Reach,
    from: nat,
)
    requires
        least_group(hits, from) != Some(from as u32),
        from < 0x1_0000_0000,
    ensures
        forall|r: int|
            0 <= r < named_rows(file, column, hits, reach)(from).len()
                ==> !#[trigger] named_rows(file, column, hits, reach)(from)[r],
{
    let mask = named_rows(file, column, hits, reach);
    lemma_least_group(hits, from);
    assert forall|r: int| 0 <= r < mask(from).len() implies !#[trigger] mask(from)[r] by {
        if mask(from)[r] {
            let k = choose|k: int|
                0 <= k < hits.len() && (#[trigger] hits[k]).row_group == from as u32
                    && hit_names(
                    hits[k],
                    layouts(file, from, column).emitted[hits[k].page as int],
                    reach,
                    r as nat,
                );
            match least_group(hits, from) {
                Some(b) => {
                    assert(hits[k].row_group >= b);
                },
                None => {
                    assert(hits[k].row_group < from);
                },
            }
        }
    }
}

/// All rows.
pub open spec fn uncut() -> Choice {
    |g: nat, rows: Seq<bool>| rows
}

/// What is read for hits is what the rows they name hold, row group by row
/// group.
pub proof fn lemma_read_named<T>(
    file: ParquetFile,
    column: nat,
    source: KeySource,
    hits: Seq<HitView>,
    reach: Reach,
    target_column: nat,
    values: Values<T>,
)
    requires
        whole(file, column, source),
        readable(file, values),
        well_aimed(file, column, hits),
    ensures
        assembled(file, column, hits, reach, 0).fault is None,
        selected_values(
            assembled(file, column, hits, reach, 0).emitted,
            target_column,
            values,
        ).fault is None,
        selected_values(
            assembled(file, column, hits, reach, 0).emitted,
            target_column,
            values,
        ).emitted == kept(
            values,
            named_rows(file, column, hits, reach),
            0,
            file.row_groups@.len(),
        ),
{
    let mask = named_rows(file, column, hits, reach);
    let groups = assembled(file, column, hits, reach, 0).emitted;
    lemma_read_cut(file, column, source, hits, reach, uncut(), target_column, values, 0);
    assert(cut_groups(groups, uncut()) =~= groups);
    assert forall|g: nat| 0 <= g < file.row_groups@.len() implies #[trigger] mask(g) == cut_rows(
        mask,
        uncut(),
    )(g) by {}
    lemma_kept_same(values, mask, cut_rows(mask, uncut()), 0, file.row_groups@.len());
}

/// Masks that agree keep the same values.
pub proof fn lemma_kept_same<T>(
    values: Values<T>,
    a: spec_fn(nat) -> Seq<bool>,
    b: spec_fn(nat) -> Seq<bool>,
    from: nat,
    n: nat,
)
    requires
        forall|g: nat| from <= g < n ==> #[trigger] a(g) == b(g),
    ensures
        kept(values, a, from, n) == kept(values, b, from, n),
    decreases n - from,
{
    if from < n {
        assert(a(from) == b(from));
        lemma_kept_same(values, a, b, from + 1, n);
    }
}

/// A read through an index gives what a scan gives: where the index rows
/// `[start, end)` are those whose keys are wanted, the values of the rows of
/// the source that have a wanted key, in order, and nothing else.
pub proof fn law_indexed_read_is_scan<T>(
    target: Target,
    column: nat,
    source: KeySource,
    rows: Seq<RowView>,
    keys: Seq<SortKey>,
    p: PostingsView,
    wanted: spec_fn(SortKey) -> bool,
    start: nat,
    end: nat,
    values: Values<T>,
)
    requires
        whole(target.source, column, source),
        readable(target.source, values),
        anchor(target.indexes, target.name) is Ok,
        leaf_named(target.source, anchor(target.indexes, target.name)->Ok_0) == Ok::<nat, Fault>(
            column,
        ),
        indexes_file(rows, target.source, column, source),
        holds_index(keys, p, rows, target.source, column),
        start <= end <= keys.len(),
        forall|i: int| 0 <= i < keys.len() ==> (start <= i < end) == wanted(#[trigger] keys[i]),
    ensures
        target.found_values(hits_in(p, start, end, RowsetFormat::V2Tagged), values) == (Outcome {
            emitted: kept(
                values,
                wanted_rows(source, wanted),
                0,
                target.source.row_groups@.len(),
            ),
            fault: None::<Fault>,
        }),
{
    let file = target.source;
    let n = file.row_groups@.len();
    let hits = hits_of(rows, file, column, start, end);
    lemma_hits(keys, p, rows, file, column, source, start, end);
    assert forall|k: int| 0 <= k < hits.len() implies (#[trigger] hits[k]).row_group < n
        && hits[k].page < layouts(file, hits[k].row_group as nat, column).emitted.len() by {
        lemma_row_inside(rows, file, column, source, start + k);
    }
    lemma_read_named(file, column, source, hits, Reach::Rows, target.column, values);
    let a = named_rows(file, column, hits, Reach::Rows);
    let b = wanted_rows(source, wanted);
    assert forall|i: int| 0 <= i < rows.len() implies (start <= i < end) == wanted(
        (#[trigger] rows[i]).key,
    ) by {
        assert(keys[i] == rows[i].key);
    }
    assert forall|g: nat| 0 <= g < n implies #[trigger] a(g) == b(g) by {
        assert(group_whole(file, column, source, g));
        assert forall|r: int| 0 <= r < a(g).len() implies #[trigger] a(g)[r] == b(g)[r] by {
            if a(g)[r] {
                lemma_named_is_wanted(
                    rows,
                    file,
                    column,
                    source,
                    wanted,
                    start,
                    end,
                    g,
                    r as nat,
                );
            }
            if b(g)[r] {
                lemma_wanted_is_named(
                    rows,
                    file,
                    column,
                    source,
                    wanted,
                    start,
                    end,
                    g,
                    r as nat,
                );
            }
        }
        assert(a(g) =~= b(g));
    }
    lemma_kept_same(values, a, b, 0, n);
    if hits.len() == 0 {
        assert(assembled(file, column, hits, Reach::Rows, 0).emitted =~= Seq::empty());
    }
}

/// That a key is the given one.
pub open spec fn same_key(key: SortKey) -> spec_fn(SortKey) -> bool {
    |k: SortKey| k == key
}

/// That a key lies between two, both counted.
pub open spec fn between(lo: SortKey, hi: SortKey) -> spec_fn(SortKey) -> bool {
    |k: SortKey| !key_before(k, lo) && !key_before(hi, k)
}

/// An equality read through an index gives the values of exactly the rows of
/// the source that have the key.
pub proof fn law_equality_read_is_scan<T>(
    target: Target,
    column: nat,
    source: KeySource,
    rows: Seq<RowView>,
    keys: Seq<SortKey>,
    p: PostingsView,
    key: SortKey,
    start: nat,
    end: nat,
    values: Values<T>,
)
    requires
        whole(target.source, column, source),
        readable(target.source, values),
        anchor(target.indexes, target.name) is Ok,
        leaf_named(target.source, anchor(target.indexes, target.name)->Ok_0) == Ok::<nat, Fault>(
            column,
        ),
        indexes_file(rows, target.source, column, source),
        holds_index(keys, p, rows, target.source, column),
        is_run(keys, key, start, end),
    ensures
        target.found_values(hits_in(p, start, end, RowsetFormat::V2Tagged), values) == (Outcome {
            emitted: kept(
                values,
                wanted_rows(source, same_key(key)),
                0,
                target.source.row_groups@.len(),
            ),
            fault: None::<Fault>,
        }),
{
    law_index_is_sorted(rows);
    law_indexed_read_is_scan(
        target,
        column,
        source,
        rows,
        keys,
        p,
        same_key(key),
        start,
        end,
        values,
    );
}

/// A range read through an index gives the values of exactly the rows of the
/// source that have a key of the range.
pub proof fn law_range_read_is_scan<T>(
    target: Target,
    column: nat,
    source: KeySource,
    rows: Seq<RowView>,
    keys: Seq<SortKey>,
    p: PostingsView,
    lo: SortKey,
    hi: SortKey,
    start: nat,
    end: nat,
    values: Values<T>,
)
    requires
        whole(target.source, column, source),
        readable(target.source, values),
        anchor(target.indexes, target.name) is Ok,
        leaf_named(target.source, anchor(target.indexes, target.name)->Ok_0) == Ok::<nat, Fault>(
            column,
        ),
        indexes_file(rows, target.source, column, source),
        holds_index(keys, p, rows, target.source, column),
        is_span(keys, lo, hi, start, end),
    ensures
        target.found_values(hits_in(p, start, end, RowsetFormat::V2Tagged), values) == (Outcome {
            emitted: kept(
                values,
                wanted_rows(source, between(lo, hi)),
                0,
                target.source.row_groups@.len(),
            ),
            fault: None::<Fault>,
        }),
{
    law_index_is_sorted(rows);
    law_indexed_read_is_scan(
        target,
        column,
        source,
        rows,
        keys,
        p,
        between(lo, hi),
        start,
        end,
        values,
    );
}

/// A key is looked up as the range that starts and ends with it.
pub proof fn law_equality_is_a_range(keys: Seq<SortKey>, key: SortKey, start: nat, end: nat)
    requires
        sorted(keys),
    ensures
        is_run(keys, key, start, end) == is_span(keys, key, key, start, end),
{
    assert forall|i: int| 0 <= i < keys.len() implies ((#[trigger] keys[i]) == key) == (
    !key_before(keys[i], key) && !key_before(key, keys[i])) by {
        lemma_key_total(keys[i], key);
    }
}

/// That one page comes before another in a file.
pub open spec fn page_before(a: HitView, b: HitView) -> bool {
    a.row_group < b.row_group || (a.row_group == b.row_group && a.page < b.page)
}

/// The hits of one key are in order of their pages, each page once.
pub proof fn law_hits_of_a_key_ascend(
    rows: Seq<RowView>,
    file: ParquetFile,
    column: nat,
    key: SortKey,
    start: nat,
    end: nat,
)
    requires
        well_ordered(rows),
        is_run(rows.map_values(|r: RowView| r.key), key, start, end),
    ensures
        forall|i: int, j: int|
            0 <= i < j < end - start ==> page_before(
                #[trigger] hits_of(rows, file, column, start, end)[i],
                #[trigger] hits_of(rows, file, column, start, end)[j],
            ),
{
    let hits = hits_of(rows, file, column, start, end);
    let keys = rows.map_values(|r: RowView| r.key);
    assert forall|i: int, j: int| 0 <= i < j < end - start implies page_before(
        #[trigger] hits[i],
        #[trigger] hits[j],
    ) by {
        assert(keys[start + i] == key && keys[start + j] == key);
        assert(row_before(rows[start + i], rows[start + j]));
        lemma_key_total(key, key);
    }
}

} // verus!
