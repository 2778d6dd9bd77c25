//! From hits to rows: bitmaps over row groups, and the values they select.

use vstd::prelude::*;
use vstd::slice::slice_to_vec;
use vstd::utf8::encode_utf8;

use crate::bits::{
    bit, get_bit, holds_rows, lemma_byte_plain, lemma_pack_holds, lemma_pack_unique, pack, set_bit,
    set_range_bits,
};
use crate::column::{masked, push_masked};
use crate::delta::byte_strings;
use crate::error::{reports, CodecError, Fault, Outcome, Result};
use crate::index::file::{
    byte_values, i32_values, i64_values, read_column_byte_array, read_column_i32, read_column_i64,
    ParquetFile,
};
use crate::index::keys::bytes_same;
use crate::index::page_layout::{layouts, walk_data_pages, DataPageLayout};
use crate::index::types::{hit_views, HitView, IndexHit};
use crate::schema::SchemaElement;
use crate::text::{dec, joined3, text1, text3, text4};

verus! {

/// The first schema node with a name, from `from` on.
pub open spec fn node_named(schema: Seq<SchemaElement>, name: Seq<u8>, from: nat) -> Option<nat>
    decreases schema.len() - from,
{
    if from >= schema.len() {
        None
    } else if schema[from as int].name@ == name {
        Some(from)
    } else {
        node_named(schema, name, from + 1)
    }
}

/// The leaf column with a name, or the fault of a name that no column has.
/// The root comes first in a schema and is no column.
pub open spec fn leaf_named(source: ParquetFile, name: Seq<char>) -> std::result::Result<
    nat,
    Fault,
> {
    match node_named(source.schema@, encode_utf8(name), 1) {
        Some(i) => Ok((i - 1) as nat),
        None => Err(
            Fault::InvalidInput(
                "indexed column `"@ + name + "` not found in source file's schema"@,
            ),
        ),
    }
}

/// The leaf column with a name.
pub fn resolve_leaf_by_name(source: &ParquetFile, name: &str) -> (r: Result<usize>)
    ensures
        match leaf_named(*source, name@) {
            Ok(i) => r is Ok && r->Ok_0 == i,
            Err(f) => reports(r, Some(f)),
        },
{
    let bytes = name.as_bytes();
    let mut i: usize = 1;
    while i < source.schema.len()
        invariant
            1 <= i,
            bytes@ == encode_utf8(name@),
            node_named(source.schema@, encode_utf8(name@), 1) == node_named(
                source.schema@,
                encode_utf8(name@),
                i as nat,
            ),
        decreases source.schema@.len() - i,
    {
        if bytes_same(source.schema[i].name.as_slice(), bytes) {
            return Ok(i - 1);
        }
        i = i + 1;
    }
    Err(
        CodecError::InvalidInput(
            joined3("indexed column `", name, "` not found in source file's schema"),
        ),
    )
}

/// What a hit names: single rows of its page, or the page as a whole.
#[derive(Debug, Clone, Copy, PartialEq, Eq, Structural)]
pub enum Reach {
    Rows,
    Pages,
}

impl Reach {
    /// How messages call such a hit.
    pub open spec fn name(self) -> Seq<char> {
        match self {
            Reach::Rows => "index"@,
            Reach::Pages => "bloom"@,
        }
    }

    fn as_str(self) -> (s: &'static str)
        ensures
            s@ == self.name(),
    {
        match self {
            Reach::Rows => "index",
            Reach::Pages => "bloom",
        }
    }
}

/// The number of rows of a row group that hits name, or why it cannot be
/// told.
pub open spec fn group_size(source: ParquetFile, rg: nat, reach: Reach) -> std::result::Result<
    nat,
    Fault,
> {
    if rg >= source.row_groups@.len() {
        Err(
            Fault::InvalidInput(
                reach.name() + " hit references row_group "@ + dec(rg) + " out of source range"@,
            ),
        )
    } else if source.row_groups@[rg as int].num_rows < 0 || source.row_groups@[rg as int].num_rows
        > usize::MAX {
        Err(Fault::InvalidInput("row group "@ + dec(rg) + " has a num_rows out of range"@))
    } else {
        Ok(source.row_groups@[rg as int].num_rows as nat)
    }
}

/// The number of rows of a row group that hits name.
fn read_group_size(source: &ParquetFile, rg: u32, reach: Reach) -> (r: Result<usize>)
    ensures
        match group_size(*source, rg as nat, reach) {
            Ok(n) => r is Ok && r->Ok_0 == n,
            Err(f) => reports(r, Some(f)),
        },
{
    if rg as u128 >= source.row_groups.len() as u128 {
        let mut s: String = reach.as_str().to_string();
        s.append(text1(" hit references row_group ", rg as u128, " out of source range").as_str());
        proof {
            assert(s@ =~= reach.name() + " hit references row_group "@ + dec(rg as nat)
                + " out of source range"@);
        }
        return Err(CodecError::InvalidInput(s));
    }
    let n: i64 = source.row_groups[rg as usize].num_rows;
    if n < 0 || n as i128 > usize::MAX as i128 {
        return Err(
            CodecError::InvalidInput(
                text1("row group ", rg as u128, " has a num_rows out of range"),
            ),
        );
    }
    Ok(n as usize)
}

/// That a hit names row `r` of a row group.
pub open spec fn hit_names(h: HitView, page: DataPageLayout, reach: Reach, r: nat) -> bool {
    match reach {
        Reach::Rows => r >= page.first_row && r - page.first_row < 8 * h.rowset.len() && bit(
            h.rowset,
            (r - page.first_row) as nat,
        ) == 1,
        Reach::Pages => page.first_row <= r < page.first_row + page.num_values,
    }
}

/// That one of the first `n` hits names a row of a row group.
pub open spec fn row_named(
    hits: Seq<HitView>,
    n: nat,
    rg: u32,
    pages: Seq<DataPageLayout>,
    reach: Reach,
    r: nat,
) -> bool {
    exists|k: int|
        0 <= k < n && (#[trigger] hits[k]).row_group == rg && hit_names(
            hits[k],
            pages[hits[k].page as int],
            reach,
            r,
        )
}

/// The fault of the first hit, from `from` on, on a page of a row group that
/// is not there.
pub open spec fn stray_page(hits: Seq<HitView>, rg: u32, pages: nat, reach: Reach, from: nat) -> Option<Fault>
    decreases hits.len() - from,
{
    if from >= hits.len() {
        None
    } else if hits[from as int].row_group == rg && hits[from as int].page >= pages {
        Some(
            Fault::InvalidInput(
                reach.name() + " hit references page "@ + dec(hits[from as int].page as nat) + " in rg "@
                    + dec(rg as nat) + " but indexed column has only "@ + dec(pages) + " pages"@,
            ),
        )
    } else {
        stray_page(hits, rg, pages, reach, from + 1)
    }
}

/// For each row of a row group, whether a hit names it.
pub open spec fn group_rows(
    source: ParquetFile,
    column: nat,
    hits: Seq<HitView>,
    reach: Reach,
    rg: u32,
) -> std::result::Result<
    Seq<bool>,
    Fault,
> {
    match group_size(source, rg as nat, reach) {
        Err(f) => Err(f),
        Ok(n) => {
            let pages = layouts(source, rg as nat, column);
            match pages.fault {
                Some(f) => Err(f),
                None => match stray_page(hits, rg, pages.emitted.len(), reach, 0) {
                    Some(f) => Err(f),
                    None => Ok(
                        Seq::new(n, |r: int| row_named(hits, hits.len(), rg, pages.emitted, reach, r as nat)),
                    ),
                },
            }
        },
    }
}

/// Sets the bits of the rows that a hit names one by one.
fn mark_rows(bitmap: &mut Vec<u8>, n_rows: usize, hit: &IndexHit, page: &DataPageLayout)
    requires
        old(bitmap)@.len() == (n_rows + 7) / 8,
    ensures
        final(bitmap)@.len() == old(bitmap)@.len(),
        forall|r: nat|
            r < 8 * old(bitmap)@.len() ==> (#[trigger] bit(final(bitmap)@, r) == 1) == (bit(
                old(bitmap)@,
                r,
            ) == 1 || (r < n_rows && hit_names(hit@, *page, Reach::Rows, r))),
{
    let ghost before = bitmap@;
    let first: usize = page.first_row;
    if first >= n_rows {
        return ;
    }
    let room: usize = n_rows - first;
    let len: usize = hit.rowset.len();
    let limit: usize = if len > room / 8 {
        room
    } else {
        8 * len
    };
    let mut j: usize = 0;
    while j < limit
        invariant
            j <= limit <= room,
            room == n_rows - first,
            limit <= 8 * hit.rowset@.len(),
            bitmap@.len() == before.len() == (n_rows + 7) / 8,
            forall|r: nat|
                r < 8 * before.len() ==> (#[trigger] bit(bitmap@, r) == 1) == (bit(before, r) == 1
                    || (first <= r < first + j && bit(hit.rowset@, (r - first) as nat) == 1)),
        decreases limit - j,
    {
        let ghost current = bitmap@;
        if get_bit(hit.rowset.as_slice(), j) {
            set_bit(bitmap, 0, first + j);
            proof {
                assert(current.skip(0) =~= current);
                assert(bitmap@.skip(0) =~= bitmap@);
                assert forall|r: nat| r < 8 * before.len() implies (#[trigger] bit(bitmap@, r) == 1)
                    == (bit(before, r) == 1 || (first <= r < first + j + 1 && bit(
                    hit.rowset@,
                    (r - first) as nat,
                ) == 1)) by {
                    assert(bit(bitmap@.skip(0), r) == if r == first + j {
                        1
                    } else {
                        bit(current.skip(0), r)
                    });
                }
            }
        }
        j = j + 1;
    }
}

/// Sets the bits of all rows of a page.
fn mark_page(bitmap: &mut Vec<u8>, n_rows: usize, page: &DataPageLayout)
    requires
        old(bitmap)@.len() == (n_rows + 7) / 8,
    ensures
        final(bitmap)@.len() == old(bitmap)@.len(),
        forall|r: nat|
            r < 8 * old(bitmap)@.len() ==> (#[trigger] bit(final(bitmap)@, r) == 1) == (bit(
                old(bitmap)@,
                r,
            ) == 1 || (r < n_rows && page.first_row <= r < page.first_row + page.num_values)),
{
    if page.first_row >= n_rows {
        return ;
    }
    let end: usize = if page.num_values > n_rows - page.first_row {
        n_rows
    } else {
        page.first_row + page.num_values
    };
    let ghost before = bitmap@;
    set_range_bits(bitmap, 0, page.first_row, end);
    proof {
        assert(before.skip(0) =~= before);
        assert(bitmap@.skip(0) =~= bitmap@);
    }
}

/// The bitmap of the rows of a row group that hits name.
fn group_bitmap(
    source: &ParquetFile,
    column: usize,
    hits: &Vec<IndexHit>,
    reach: Reach,
    rg: u32,
) -> (r: Result<(usize, Vec<u8>)>)
    ensures
        match group_rows(*source, column as nat, hit_views(hits@), reach, rg) {
            Ok(rows) => r is Ok && r->Ok_0.1@ == pack(rows) && r->Ok_0.0 == rows.len(),
            Err(f) => reports(r, Some(f)),
        },
{
    let ghost views = hit_views(hits@);
    let n_rows: usize = match read_group_size(source, rg, reach) {
        Ok(n) => n,
        Err(e) => {
            return Err(e);
        },
    };
    let pages: Vec<DataPageLayout> = match walk_data_pages(source, rg as usize, column) {
        Ok(p) => p,
        Err(e) => {
            return Err(e);
        },
    };
    let bytes: usize = n_rows / 8 + if n_rows % 8 == 0 { 0usize } else { 1usize };
    let mut bitmap: Vec<u8> = Vec::new();
    bitmap.resize(bytes, 0);
    proof {
        assert forall|j: nat| j < 8 * bytes implies #[trigger] bit(bitmap@, j) == 0 by {
            lemma_byte_plain(j % 8);
        }
    }
    let mut k: usize = 0;
    while k < hits.len()
        invariant
            k <= hits@.len(),
            views == hit_views(hits@),
            pages@ == layouts(*source, rg as nat, column as nat).emitted,
            layouts(*source, rg as nat, column as nat).fault is None,
            group_size(*source, rg as nat, reach) == Ok::<nat, Fault>(n_rows as nat),
            bitmap@.len() == (n_rows + 7) / 8,
            stray_page(views, rg, pages@.len(), reach, 0) == stray_page(
                views,
                rg,
                pages@.len(),
                reach,
                k as nat,
            ),
            forall|r: nat|
                r < 8 * bitmap@.len() ==> (#[trigger] bit(bitmap@, r) == 1) == (r < n_rows
                    && row_named(views, k as nat, rg, pages@, reach, r)),
        decreases hits@.len() - k,
    {
        let hit = &hits[k];
        let ghost before = bitmap@;
        proof {
            assert(views[k as int] == hit@);
        }
        if hit.row_group == rg {
            if hit.page as u128 >= pages.len() as u128 {
                let mut s: String = reach.as_str().to_string();
                let rest: String = text3(
                    " hit references page ",
                    hit.page as u128,
                    " in rg ",
                    rg as u128,
                    " but indexed column has only ",
                    pages.len() as u128,
                    " pages",
                );
                s.append(rest.as_str());
                proof {
                    assert(s@ =~= reach.name() + " hit references page "@ + dec(hit.page as nat)
                        + " in rg "@ + dec(rg as nat) + " but indexed column has only "@ + dec(
                        pages@.len(),
                    ) + " pages"@);
                }
                return Err(CodecError::InvalidInput(s));
            }
            match reach {
                Reach::Rows => mark_rows(&mut bitmap, n_rows, hit, &pages[hit.page as usize]),
                Reach::Pages => mark_page(&mut bitmap, n_rows, &pages[hit.page as usize]),
            }
        }
        proof {
            assert forall|r: nat| r < 8 * bitmap@.len() implies (#[trigger] bit(bitmap@, r) == 1)
                == (r < n_rows && row_named(views, (k + 1) as nat, rg, pages@, reach, r)) by {
                assert((bit(before, r) == 1) == (r < n_rows && row_named(
                    views,
                    k as nat,
                    rg,
                    pages@,
                    reach,
                    r,
                )));
                let page = pages@[hit.page as int];
                if row_named(views, k as nat, rg, pages@, reach, r) {
                    let q = choose|q: int|
                        0 <= q < k && (#[trigger] views[q]).row_group == rg && hit_names(
                            views[q],
                            pages@[views[q].page as int],
                            reach,
                            r,
                        );
                    assert(0 <= q < k + 1 && views[q].row_group == rg);
                }
                if hit.row_group == rg && hit_names(hit@, page, reach, r) {
                    assert(views[k as int].row_group == rg);
                }
                if row_named(views, (k + 1) as nat, rg, pages@, reach, r) {
                    let q = choose|q: int|
                        0 <= q < k + 1 && (#[trigger] views[q]).row_group == rg && hit_names(
                            views[q],
                            pages@[views[q].page as int],
                            reach,
                            r,
                        );
                    if q < k {
                        assert(row_named(views, k as nat, rg, pages@, reach, r));
                    }
                }
            }
        }
        k = k + 1;
    }
    proof {
        let rows = group_rows(*source, column as nat, views, reach, rg)->Ok_0;
        assert forall|r: nat| r < 8 * bitmap@.len() implies (#[trigger] bit(bitmap@, r) == 1) == (r
            < rows.len() && rows[r as int]) by {
            if r < n_rows {
                assert(rows[r as int] == row_named(views, views.len(), rg, pages@, reach, r));
            }
        }
        lemma_pack_unique(bitmap@, rows);
    }
    Ok((n_rows, bitmap))
}

/// The least row group, from `from` on, that hits name.
pub open spec fn least_group(hits: Seq<HitView>, from: nat) -> Option<u32>
    decreases hits.len(),
{
    if hits.len() == 0 {
        None
    } else {
        let g = hits.last().row_group;
        let rest = least_group(hits.drop_last(), from);
        if g >= from && (rest is None || g < rest->Some_0) {
            Some(g)
        } else {
            rest
        }
    }
}

fn next_group(hits: &Vec<IndexHit>, from: u64) -> (r: Option<u32>)
    ensures
        r == least_group(hit_views(hits@), from as nat),
{
    let ghost views = hit_views(hits@);
    let mut best: Option<u32> = None;
    let mut i: usize = 0;
    while i < hits.len()
        invariant
            i <= hits@.len(),
            views == hit_views(hits@),
            best == least_group(views.take(i as int), from as nat),
        decreases hits@.len() - i,
    {
        proof {
            assert(views.take(i + 1).drop_last() =~= views.take(i as int));
            assert(views.take(i + 1).last() == hits@[i as int]@);
        }
        let g: u32 = hits[i].row_group;
        let better: bool = match best {
            None => true,
            Some(b) => g < b,
        };
        if g as u64 >= from && better {
            best = Some(g);
        }
        i = i + 1;
    }
    proof {
        assert(views.take(i as int) =~= views);
    }
    best
}

pub proof fn lemma_least_group(hits: Seq<HitView>, from: nat)
    ensures
        match least_group(hits, from) {
            Some(g) => {
                &&& g >= from
                &&& exists|k: int| 0 <= k < hits.len() && (#[trigger] hits[k]).row_group == g
                &&& forall|k: int|
                    0 <= k < hits.len() && (#[trigger] hits[k]).row_group >= from
                        ==> hits[k].row_group >= g
            },
            None => forall|k: int|
                0 <= k < hits.len() ==> (#[trigger] hits[k]).row_group < from,
        },
    decreases hits.len(),
{
    if hits.len() > 0 {
        let head = hits.drop_last();
        lemma_least_group(head, from);
        let g = hits.last().row_group;
        match least_group(hits, from) {
            Some(b) => {
                if b == g && g >= from && hits[hits.len() - 1].row_group == b {
                } else {
                    let k = choose|k: int|
                        0 <= k < head.len() && (#[trigger] head[k]).row_group == b;
                    assert(hits[k].row_group == b);
                }
                assert forall|k: int|
                    0 <= k < hits.len() && (#[trigger] hits[k]).row_group >= from implies hits[k].row_group
                    >= b by {
                    if k < head.len() {
                        assert(head[k] == hits[k]);
                    }
                }
            },
            None => {
                assert forall|k: int| 0 <= k < hits.len() implies (#[trigger] hits[k]).row_group
                    < from by {
                    if k < head.len() {
                        assert(head[k] == hits[k]);
                    }
                }
            },
        }
    }
}

#[via_fn]
proof fn assembled_decreases(
    source: ParquetFile,
    column: nat,
    hits: Seq<HitView>,
    reach: Reach,
    from: nat,
) {
    lemma_least_group(hits, from);
}

/// The row groups from `from` on that hits name, ascending, each with the
/// rows that are named in it.
pub open spec fn assembled(
    source: ParquetFile,
    column: nat,
    hits: Seq<HitView>,
    reach: Reach,
    from: nat,
) -> Outcome<(u32, Seq<bool>)>
    decreases 0x1_0000_0000 - from,
    via assembled_decreases
{
    match least_group(hits, from) {
        None => Outcome { emitted: Seq::empty(), fault: None },
        Some(g) => match group_rows(source, column, hits, reach, g) {
            Err(f) => Outcome { emitted: Seq::empty(), fault: Some(f) },
            Ok(rows) => assembled(source, column, hits, reach, g as nat + 1).after(seq![(g, rows)]),
        },
    }
}

/// A row group and the bitmap of some of its rows.
#[derive(Debug)]
pub struct GroupBitmap {
    pub row_group: u32,
    pub num_rows: usize,
    pub bitmap: Vec<u8>,
}

/// That bitmaps are those of row groups and their rows.
pub open spec fn bitmaps_of(list: Seq<GroupBitmap>, groups: Seq<(u32, Seq<bool>)>) -> bool {
    &&& list.len() == groups.len()
    &&& forall|i: int|
        0 <= i < list.len() ==> (#[trigger] list[i]).row_group == groups[i].0 && list[i].bitmap@
            == pack(groups[i].1) && list[i].num_rows == groups[i].1.len()
}

/// The bitmaps of the row groups that hits name, ascending.
pub fn assemble_groups(
    source: &ParquetFile,
    column: usize,
    hits: &Vec<IndexHit>,
    reach: Reach,
) -> (r: Result<Vec<GroupBitmap>>)
    ensures
        reports(r, assembled(*source, column as nat, hit_views(hits@), reach, 0).fault),
        r is Ok ==> bitmaps_of(
            r->Ok_0@,
            assembled(*source, column as nat, hit_views(hits@), reach, 0).emitted,
        ),
{
    let ghost views = hit_views(hits@);
    let ghost whole = assembled(*source, column as nat, views, reach, 0);
    let ghost mut done: Seq<(u32, Seq<bool>)> = Seq::empty();
    let mut out: Vec<GroupBitmap> = Vec::new();
    let mut from: u64 = 0;
    proof {
        assert(done + whole.emitted =~= whole.emitted);
    }
    loop
        invariant
            from <= 0x1_0000_0000,
            views == hit_views(hits@),
            whole == assembled(*source, column as nat, views, reach, 0),
            whole == assembled(*source, column as nat, views, reach, from as nat).after(done),
            bitmaps_of(out@, done),
        decreases 0x1_0000_0000 - from,
    {
        proof {
            lemma_least_group(views, from as nat);
        }
        let g: u32 = match next_group(hits, from) {
            Some(g) => g,
            None => {
                proof {
                    assert(whole.emitted =~= done);
                }
                return Ok(out);
            },
        };
        let (num_rows, bitmap) = match group_bitmap(source, column, hits, reach, g) {
            Ok(b) => b,
            Err(e) => {
                return Err(e);
            },
        };
        out.push(GroupBitmap { row_group: g, num_rows, bitmap });
        from = g as u64 + 1;
        proof {
            let rows = group_rows(*source, column as nat, views, reach, g)->Ok_0;
            let rest = assembled(*source, column as nat, views, reach, from as nat);
            assert(done + (seq![(g, rows)] + rest.emitted) =~= done.push((g, rows))
                + rest.emitted);
            done = done.push((g, rows));
        }
    }
}

/// The fault of a mask that has fewer rows than a column.
pub open spec fn short_mask(rows: nat, column: nat, rg: nat, held: nat) -> Fault {
    Fault::InvalidInput(
        "row mask covers "@ + dec(rows) + " rows, column "@ + dec(column) + " in rg "@ + dec(rg)
            + " holds "@ + dec(held) + ""@,
    )
}

/// The values of a column that the rows of row groups select.
pub open spec fn selected_values<T>(
    groups: Seq<(u32, Seq<bool>)>,
    column: nat,
    values: spec_fn(nat) -> std::result::Result<Seq<T>, Fault>,
) -> Outcome<T>
    decreases groups.len(),
{
    if groups.len() == 0 {
        Outcome { emitted: Seq::empty(), fault: None }
    } else {
        let (rg, rows) = groups[0];
        match values(rg as nat) {
            Err(f) => Outcome { emitted: Seq::empty(), fault: Some(f) },
            Ok(v) => if v.len() > rows.len() {
                Outcome {
                    emitted: Seq::empty(),
                    fault: Some(short_mask(rows.len(), column, rg as nat, v.len())),
                }
            } else {
                selected_values(groups.skip(1), column, values).after(masked(v, rows))
            },
        }
    }
}

pub(crate) fn mask_err(rows: usize, column: usize, rg: u32, held: usize) -> (e: CodecError)
    ensures
        e@ == short_mask(rows as nat, column as nat, rg as nat, held as nat),
{
    CodecError::InvalidInput(
        text4(
            "row mask covers ",
            rows as u128,
            " rows, column ",
            column as u128,
            " in rg ",
            rg as u128,
            " holds ",
            held as u128,
            "",
        ),
    )
}

/// The i64 values of a column that the rows of row groups select.
pub(crate) fn materialize_i64(source: &ParquetFile, groups: &Vec<GroupBitmap>, column: usize, Ghost(of): Ghost<
    Seq<(u32, Seq<bool>)>,
>) -> (r: Result<Vec<i64>>)
    requires
        bitmaps_of(groups@, of),
    ensures
        reports(r, selected_values(of, column as nat, i64_values(*source, column as nat)).fault),
        r is Ok ==> r->Ok_0@ == selected_values(
            of,
            column as nat,
            i64_values(*source, column as nat),
        ).emitted,
{
    let ghost values = i64_values(*source, column as nat);
    let ghost whole = selected_values(of, column as nat, values);
    let mut out: Vec<i64> = Vec::new();
    let mut i: usize = 0;
    proof {
        assert(of.skip(0) =~= of);
        assert(out@ + whole.emitted =~= whole.emitted);
    }
    while i < groups.len()
        invariant
            i <= groups@.len(),
            bitmaps_of(groups@, of),
            values == i64_values(*source, column as nat),
            whole == selected_values(of, column as nat, values),
            whole == selected_values(of.skip(i as int), column as nat, values).after(out@),
        decreases groups@.len() - i,
    {
        let g = &groups[i];
        let ghost rows = of[i as int].1;
        proof {
            assert(of.skip(i as int)[0] == of[i as int]);
            assert(of.skip(i as int).skip(1) =~= of.skip(i + 1));
        }
        let v = match read_column_i64(source, g.row_group as usize, column) {
            Ok(v) => v,
            Err(e) => {
                return Err(e);
            },
        };
        if v.len() > g.num_rows {
            return Err(mask_err(g.num_rows, column, g.row_group, v.len()));
        }
        let ghost before = out@;
        push_masked(v, &g.bitmap, &mut out, Ghost(rows));
        proof {
            let rest = selected_values(of.skip(i + 1), column as nat, values);
            assert(before + (masked(v@, rows) + rest.emitted) =~= out@ + rest.emitted);
        }
        i = i + 1;
    }
    proof {
        assert(whole.emitted =~= out@);
    }
    Ok(out)
}

/// The i32 values of a column that the rows of row groups select.
pub(crate) fn materialize_i32(source: &ParquetFile, groups: &Vec<GroupBitmap>, column: usize, Ghost(of): Ghost<
    Seq<(u32, Seq<bool>)>,
>) -> (r: Result<Vec<i32>>)
    requires
        bitmaps_of(groups@, of),
    ensures
        reports(r, selected_values(of, column as nat, i32_values(*source, column as nat)).fault),
        r is Ok ==> r->Ok_0@ == selected_values(
            of,
            column as nat,
            i32_values(*source, column as nat),
        ).emitted,
{
    let ghost values = i32_values(*source, column as nat);
    let ghost whole = selected_values(of, column as nat, values);
    let mut out: Vec<i32> = Vec::new();
    let mut i: usize = 0;
    proof {
        assert(of.skip(0) =~= of);
        assert(out@ + whole.emitted =~= whole.emitted);
    }
    while i < groups.len()
        invariant
            i <= groups@.len(),
            bitmaps_of(groups@, of),
            values == i32_values(*source, column as nat),
            whole == selected_values(of, column as nat, values),
            whole == selected_values(of.skip(i as int), column as nat, values).after(out@),
        decreases groups@.len() - i,
    {
        let g = &groups[i];
        let ghost rows = of[i as int].1;
        proof {
            assert(of.skip(i as int)[0] == of[i as int]);
            assert(of.skip(i as int).skip(1) =~= of.skip(i + 1));
        }
        let v = match read_column_i32(source, g.row_group as usize, column) {
            Ok(v) => v,
            Err(e) => {
                return Err(e);
            },
        };
        if v.len() > g.num_rows {
            return Err(mask_err(g.num_rows, column, g.row_group, v.len()));
        }
        let ghost before = out@;
        push_masked(v, &g.bitmap, &mut out, Ghost(rows));
        proof {
            let rest = selected_values(of.skip(i + 1), column as nat, values);
            assert(before + (masked(v@, rows) + rest.emitted) =~= out@ + rest.emitted);
        }
        i = i + 1;
    }
    proof {
        assert(whole.emitted =~= out@);
    }
    Ok(out)
}

/// Appends copies of the byte strings whose bit is set.
fn push_masked_strings(
    values: &Vec<Vec<u8>>,
    bitmap: &Vec<u8>,
    out: &mut Vec<Vec<u8>>,
    Ghost(rows): Ghost<Seq<bool>>,
)
    requires
        bitmap@ == pack(rows),
        values@.len() <= rows.len(),
    ensures
        byte_strings(final(out)@) == byte_strings(old(out)@) + masked(byte_strings(values@), rows),
{
    let ghost start = byte_strings(out@);
    let ghost all = byte_strings(values@);
    let mut i: usize = 0;
    proof {
        lemma_pack_holds(rows);
        assert(start + masked(all.take(0), rows) =~= start);
    }
    while i < values.len()
        invariant
            i <= values@.len(),
            all == byte_strings(values@),
            bitmap@ == pack(rows),
            holds_rows(bitmap@, rows),
            values@.len() <= rows.len(),
            byte_strings(out@) == start + masked(all.take(i as int), rows),
        decreases values@.len() - i,
    {
        let ghost before = out@;
        proof {
            assert(all.take(i + 1).drop_last() =~= all.take(i as int));
            assert((bit(bitmap@, i as nat) == 1) == (i < rows.len() && rows[i as int]));
        }
        if get_bit(bitmap.as_slice(), i) {
            let row: Vec<u8> = slice_to_vec(values[i].as_slice());
            let ghost bytes = row@;
            out.push(row);
            proof {
                assert(byte_strings(out@) =~= byte_strings(before).push(bytes));
            }
        }
        proof {
            assert(byte_strings(out@) =~= start + masked(all.take(i + 1), rows));
        }
        i = i + 1;
    }
    proof {
        assert(all.take(i as int) =~= all);
    }
}

/// The byte strings of a column that the rows of row groups select.
pub(crate) fn materialize_byte_array(
    source: &ParquetFile,
    groups: &Vec<GroupBitmap>,
    column: usize,
    Ghost(of): Ghost<Seq<(u32, Seq<bool>)>>,
) -> (r: Result<Vec<Vec<u8>>>)
    requires
        bitmaps_of(groups@, of),
    ensures
        reports(r, selected_values(of, column as nat, byte_values(*source, column as nat)).fault),
        r is Ok ==> byte_strings(r->Ok_0@) == selected_values(
            of,
            column as nat,
            byte_values(*source, column as nat),
        ).emitted,
{
    let ghost values = byte_values(*source, column as nat);
    let ghost whole = selected_values(of, column as nat, values);
    let mut out: Vec<Vec<u8>> = Vec::new();
    let mut i: usize = 0;
    proof {
        assert(of.skip(0) =~= of);
        assert(byte_strings(out@) + whole.emitted =~= whole.emitted);
    }
    while i < groups.len()
        invariant
            i <= groups@.len(),
            bitmaps_of(groups@, of),
            values == byte_values(*source, column as nat),
            whole == selected_values(of, column as nat, values),
            whole == selected_values(of.skip(i as int), column as nat, values).after(
                byte_strings(out@),
            ),
        decreases groups@.len() - i,
    {
        let g = &groups[i];
        let ghost rows = of[i as int].1;
        proof {
            assert(of.skip(i as int)[0] == of[i as int]);
            assert(of.skip(i as int).skip(1) =~= of.skip(i + 1));
        }
        let v = match read_column_byte_array(source, g.row_group as usize, column) {
            Ok(v) => v,
            Err(e) => {
                return Err(e);
            },
        };
        if v.len() > g.num_rows {
            return Err(mask_err(g.num_rows, column, g.row_group, v.len()));
        }
        let ghost before = byte_strings(out@);
        push_masked_strings(v, &g.bitmap, &mut out, Ghost(rows));
        proof {
            let rest = selected_values(of.skip(i + 1), column as nat, values);
            assert(before + (masked(byte_strings(v@), rows) + rest.emitted) =~= byte_strings(out@)
                + rest.emitted);
        }
        i = i + 1;
    }
    proof {
        assert(whole.emitted =~= byte_strings(out@));
    }
    Ok(out)
}

proof fn lemma_node_named(schema: Seq<SchemaElement>, name: Seq<u8>, from: nat)
    ensures
        match node_named(schema, name, from) {
            Some(i) => {
                &&& from <= i < schema.len()
                &&& schema[i as int].name@ == name
                &&& forall|k: int| from <= k < i ==> (#[trigger] schema[k]).name@ != name
            },
            None => forall|k: int|
                from <= k < schema.len() ==> (#[trigger] schema[k]).name@ != name,
        },
    decreases schema.len() - from,
{
    if from < schema.len() && schema[from as int].name@ != name {
        lemma_node_named(schema, name, from + 1);
    }
}

/// A name stands for the first column that has it, counted from the first
/// node after the root, and is refused exactly where no column has it.
pub proof fn law_name_stands_for_its_column(source: ParquetFile, name: Seq<char>)
    ensures
        ({
            let schema = source.schema@;
            match leaf_named(source, name) {
                Ok(c) => {
                    &&& c + 1 < schema.len()
                    &&& schema[(c + 1) as int].name@ == encode_utf8(name)
                    &&& forall|k: int|
                        1 <= k <= c ==> (#[trigger] schema[k]).name@ != encode_utf8(name)
                },
                Err(_) => forall|k: int|
                    1 <= k < schema.len() ==> (#[trigger] schema[k]).name@ != encode_utf8(name),
            }
        }),
{
    lemma_node_named(source.schema@, encode_utf8(name), 1);
}

} // verus!
