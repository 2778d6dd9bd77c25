//! What page filters tell, against what the pages hold.

use vstd::prelude::*;

use crate::bits::bit;
use crate::bloom::{
    contains, filter_in, law_stored_filter_reads_back, lemma_probe_bounds, probe,
};
use crate::error::{Fault, Outcome};
use crate::index::builder::{
    filter_of, group_pages, i64_hash, i64_source, is_page_filter, lemma_page_inside, page_list,
    page_values,
};
use crate::index::file::{i64_values, ParquetFile};
use crate::index::keys::{IndexKey, SortKey};
use crate::index::laws::{
    cut_groups, cut_rows, group_whole, kept, lemma_kept_same, lemma_page_of, lemma_read_cut,
    named_rows, readable, same_key, wanted_rows, whole, Choice, Values,
};
use crate::index::materialize::{assembled, leaf_named, row_named, Reach};
use crate::index::page_layout::{law_pages_share_out_rows, layouts};
use crate::index::query::{candidates, groups_with, page_hits, rows_with, Target};
use crate::index::reader::index_named;
use crate::wrap::{low32, wrap32};

verus! {

/// A page's filter holds every value of the page.
pub proof fn law_page_filter_holds_its_values<F: Fn(usize) -> u32>(
    stored: Seq<u8>,
    values: Seq<i64>,
    num_blocks: F,
    j: int,
)
    requires
        is_page_filter(stored, values, num_blocks),
        forall|n: usize, b: u32| #[trigger]
            call_ensures(num_blocks, (n,), b) ==> 1 <= b && 32 * b <= i32::MAX,
        0 <= j < values.len(),
    ensures
        filter_in(stored) is Ok,
        contains(filter_in(stored)->Ok_0, i64_hash(values[j])),
{
    let (bits, blocks) = choose|bits: Seq<u8>, blocks: u32|
        {
            &&& #[trigger] filter_of(bits, values, blocks)
            &&& call_ensures(
                num_blocks,
                (crate::index::builder::distinct(values) as usize,),
                blocks,
            )
            &&& stored == crate::bloom::header_bytes(wrap32(bits.len() as int)) + bits
        };
    law_stored_filter_reads_back(bits);
    let h = i64_hash(values[j]);
    assert(bits.len() / 32 == blocks);
    assert forall|i: int| 0 <= i < 8 implies bit(
        bits,
        #[trigger] probe(h, (bits.len() / 32) as nat, i),
    ) == 1 by {
        lemma_probe_bounds(h, blocks as nat, i);
    }
}

/// That stored rows of a page-filter index are those of a file.
pub open spec fn holds_filters<F: Fn(usize) -> u32>(
    source_rgs: Seq<i32>,
    source_pages: Seq<i32>,
    blooms: Seq<Seq<u8>>,
    file: ParquetFile,
    column: nat,
    num_blocks: F,
) -> bool {
    let list = page_list(file, column, file.row_groups@.len());
    &&& source_rgs == list.map_values(|p: (u32, u32)| wrap32(p.0 as int))
    &&& source_pages == list.map_values(|p: (u32, u32)| wrap32(p.1 as int))
    &&& blooms.len() == list.len()
    &&& forall|i: int|
        0 <= i < list.len() ==> is_page_filter(
            #[trigger] blooms[i],
            page_values(file, column, list[i].0, list[i].1),
            num_blocks,
        )
}

/// A probe fails on no stored page filter, names only pages of the column,
/// and leaves out no page that holds the value.
pub proof fn law_probe_misses_no_page<F: Fn(usize) -> u32>(
    source_rgs: Seq<i32>,
    source_pages: Seq<i32>,
    blooms: Seq<Seq<u8>>,
    file: ParquetFile,
    column: nat,
    num_blocks: F,
    v: i64,
    from: nat,
)
    requires
        holds_filters(source_rgs, source_pages, blooms, file, column, num_blocks),
        forall|n: usize, b: u32| #[trigger]
            call_ensures(num_blocks, (n,), b) ==> 1 <= b && 32 * b <= i32::MAX,
    ensures
        ({
            let list = page_list(file, column, file.row_groups@.len());
            let told = candidates(source_rgs, source_pages, blooms, i64_hash(v), from);
            &&& told.fault is None
            &&& forall|k: int|
                0 <= k < told.emitted.len() ==> list.contains(#[trigger] told.emitted[k])
            &&& forall|i: int|
                from <= i < list.len() && page_values(
                    file,
                    column,
                    list[i].0,
                    list[i].1,
                ).contains(v) ==> told.emitted.contains(#[trigger] list[i])
        }),
    decreases blooms.len() - from,
{
    let list = page_list(file, column, file.row_groups@.len());
    let holds = |p: (u32, u32)| page_values(file, column, p.0, p.1).contains(v);
    let h = i64_hash(v);
    if from < blooms.len() {
        let at = from as int;
        let values = page_values(file, column, list[at].0, list[at].1);
        law_probe_misses_no_page(
            source_rgs,
            source_pages,
            blooms,
            file,
            column,
            num_blocks,
            v,
            from + 1,
        );
        let rest = candidates(source_rgs, source_pages, blooms, h, from + 1).emitted;
        let told = candidates(source_rgs, source_pages, blooms, h, from).emitted;
        assert(is_page_filter(blooms[at], values, num_blocks));
        assert(contains(filter_in(blooms[at])->Ok_0, h) || !holds(list[at])) by {
            if holds(list[at]) {
                let j = choose|j: int| 0 <= j < values.len() && values[j] == v;
                law_page_filter_holds_its_values(blooms[at], values, num_blocks, j);
            }
        }
        lemma_filter_readable(blooms[at], values, num_blocks);
        assert((low32(source_rgs[at] as int), low32(source_pages[at] as int)) == list[at]) by {
            assert(source_rgs[at] == wrap32(list[at].0 as int));
            assert(source_pages[at] == wrap32(list[at].1 as int));
        }
        let named = contains(filter_in(blooms[at])->Ok_0, h);
        let step: Seq<(u32, u32)> = if named {
            seq![list[at]]
        } else {
            Seq::empty()
        };
        assert(told == step + rest);
        assert forall|i: int|
            from + 1 <= i < list.len() && holds(#[trigger] list[i]) implies rest.contains(
            list[i],
        ) by {
            assert(page_values(file, column, list[i].0, list[i].1).contains(v));
        }
        lemma_told_grows(list, rest, told, holds, from, named);
        assert forall|i: int|
            from <= i < list.len() && page_values(
                file,
                column,
                list[i].0,
                list[i].1,
            ).contains(v) implies told.contains(#[trigger] list[i]) by {
            assert(holds(list[i]));
        }
    }
}

/// What is told of pages from one on, and what is told of those after it.
proof fn lemma_told_grows(
    list: Seq<(u32, u32)>,
    rest: Seq<(u32, u32)>,
    told: Seq<(u32, u32)>,
    holds: spec_fn((u32, u32)) -> bool,
    from: nat,
    named: bool,
)
    requires
        from < list.len(),
        told == if named {
            seq![list[from as int]] + rest
        } else {
            Seq::empty() + rest
        },
        named || !holds(list[from as int]),
        forall|k: int| 0 <= k < rest.len() ==> list.contains(#[trigger] rest[k]),
        forall|i: int|
            from + 1 <= i < list.len() && holds(#[trigger] list[i]) ==> rest.contains(list[i]),
    ensures
        forall|k: int| 0 <= k < told.len() ==> list.contains(#[trigger] told[k]),
        forall|i: int| from <= i < list.len() && holds(#[trigger] list[i]) ==> told.contains(list[i]),
{
    let shift: int = if named {
        1
    } else {
        0
    };
    assert forall|k: int| 0 <= k < told.len() implies list.contains(#[trigger] told[k]) by {
        if k >= shift {
            assert(told[k] == rest[k - shift]);
        } else {
            assert(told[k] == list[from as int]);
        }
    }
    assert forall|i: int| from <= i < list.len() && holds(#[trigger] list[i]) implies told.contains(
        list[i],
    ) by {
        if i == from {
            assert(told[0] == list[i]);
        } else {
            let k = choose|k: int| 0 <= k < rest.len() && rest[k] == list[i];
            assert(told[shift + k] == list[i]);
        }
    }
}

proof fn lemma_filter_readable<F: Fn(usize) -> u32>(
    stored: Seq<u8>,
    values: Seq<i64>,
    num_blocks: F,
)
    requires
        is_page_filter(stored, values, num_blocks),
        forall|n: usize, b: u32| #[trigger]
            call_ensures(num_blocks, (n,), b) ==> 1 <= b && 32 * b <= i32::MAX,
    ensures
        filter_in(stored) is Ok,
{
    let (bits, blocks) = choose|bits: Seq<u8>, blocks: u32|
        {
            &&& #[trigger] filter_of(bits, values, blocks)
            &&& call_ensures(
                num_blocks,
                (crate::index::builder::distinct(values) as usize,),
                blocks,
            )
            &&& stored == crate::bloom::header_bytes(wrap32(bits.len() as int)) + bits
        };
    law_stored_filter_reads_back(bits);
}

/// The list of pages has the pages that are there, and no others.
proof fn lemma_page_list(file: ParquetFile, column: nat, n: nat)
    requires
        n <= 0x1_0000_0000,
    ensures
        forall|k: int|
            0 <= k < page_list(file, column, n).len() ==> {
                let p = #[trigger] page_list(file, column, n)[k];
                p.0 < n && p.1 < layouts(file, p.0 as nat, column).emitted.len()
            },
        forall|g: nat, p: nat|
            g < n && p < layouts(file, g, column).emitted.len() ==> page_list(
                file,
                column,
                n,
            ).contains(#[trigger] page_at(g, p)),
    decreases n,
{
    let list = page_list(file, column, n);
    if n > 0 {
        let m = (n - 1) as nat;
        lemma_page_list(file, column, m);
        law_pages_share_out_rows(file, m, column);
        let head = page_list(file, column, m);
        let pages = layouts(file, m, column).emitted;
        let tail = group_pages(file, column, m);
        assert(list == head + tail);
        assert(pages.len() <= 0x1_0000_0000) by {
            if pages.len() > 0x1_0000_0000 {
                assert(pages[0x1_0000_0000].page_idx == 0x1_0000_0000);
            }
        }
        assert forall|k: int| 0 <= k < list.len() implies {
            let p = #[trigger] list[k];
            p.0 < n && p.1 < layouts(file, p.0 as nat, column).emitted.len()
        } by {
            if k < head.len() {
                assert(list[k] == head[k]);
            } else {
                assert(list[k] == tail[k - head.len()]);
            }
        }
        assert forall|g: nat, p: nat|
            g < n && p < layouts(file, g, column).emitted.len() implies list.contains(
            #[trigger] page_at(g, p),
        ) by {
            if g < m {
                assert(head.contains(page_at(g, p)));
                let k = choose|k: int| 0 <= k < head.len() && head[k] == page_at(g, p);
                assert(list[k] == page_at(g, p));
            } else {
                assert(list[(head.len() + p) as int] == tail[p as int]);
            }
        }
    }
}

/// A page of a row group.
pub open spec fn page_at(g: nat, p: nat) -> (u32, u32) {
    (g as u32, p as u32)
}

/// The choice of the rows in which a column has the key.
pub open spec fn with_key(values: Values<i64>, key: i64) -> Choice {
    |g: nat, rows: Seq<bool>| rows_with(rows, values(g)->Ok_0, key)
}

/// Row groups that can be read are cut to their rows with the key.
proof fn lemma_groups_with(
    file: ParquetFile,
    groups: Seq<(u32, Seq<bool>)>,
    column: nat,
    values: Values<i64>,
    key: i64,
)
    requires
        readable(file, values),
        forall|k: int|
            0 <= k < groups.len() ==> (#[trigger] groups[k]).0 < file.row_groups@.len()
                && groups[k].1.len() == file.row_groups@[groups[k].0 as int].num_rows,
    ensures
        groups_with(groups, column, values, key).fault is None,
        groups_with(groups, column, values, key).emitted == cut_groups(
            groups,
            with_key(values, key),
        ),
    decreases groups.len(),
{
    let cuts = cut_groups(groups, with_key(values, key));
    if groups.len() > 0 {
        let rest = groups.skip(1);
        assert(groups[0].0 < file.row_groups@.len());
        assert(values(groups[0].0 as nat) is Ok);
        assert forall|k: int| 0 <= k < rest.len() implies (#[trigger] rest[k]).0
            < file.row_groups@.len() && rest[k].1.len()
            == file.row_groups@[rest[k].0 as int].num_rows by {
            assert(rest[k] == groups[k + 1]);
        }
        lemma_groups_with(file, rest, column, values, key);
        assert(cuts =~= seq![cuts[0]] + cut_groups(rest, with_key(values, key)));
    } else {
        assert(cuts =~= Seq::empty());
    }
}

/// A row with the key lies in a page that is named.
proof fn lemma_key_page_named(
    file: ParquetFile,
    column: nat,
    told: Seq<(u32, u32)>,
    key: i64,
    g: nat,
    r: nat,
)
    requires
        whole(file, column, i64_source(file, column)),
        g < file.row_groups@.len(),
        ({
            let list = page_list(file, column, file.row_groups@.len());
            forall|i: int|
                0 <= i < list.len() && page_values(
                    file,
                    column,
                    list[i].0,
                    list[i].1,
                ).contains(key) ==> told.contains(#[trigger] list[i])
        }),
        r < file.i64s(g, column)->Ok_0.len(),
        file.i64s(g, column)->Ok_0[r as int] == key,
    ensures
        row_named(
            page_hits(told),
            told.len(),
            g as u32,
            layouts(file, g, column).emitted,
            Reach::Pages,
            r,
        ),
{
    let source = i64_source(file, column);
    assert(group_whole(file, column, source, g));
    let values = file.i64s(g, column)->Ok_0;
    assert(source(g)->Ok_0.len() == values.len());
    let list = page_list(file, column, file.row_groups@.len());
    let pages = layouts(file, g, column).emitted;
    law_pages_share_out_rows(file, g, column);
    let p = lemma_page_of(pages, r);
    assert(pages[p].page_idx == p);
    lemma_page_list(file, column, file.row_groups@.len());
    assert(list.contains(page_at(g, p as nat)));
    let i = choose|i: int| 0 <= i < list.len() && list[i] == page_at(g, p as nat);
    lemma_page_inside(pages, p);
    let part = page_values(file, column, g as u32, p as u32);
    assert(part[r - pages[p].first_row] == key);
    assert(told.contains(list[i]));
    let k = choose|k: int| 0 <= k < told.len() && told[k] == list[i];
    assert(page_hits(told)[k].row_group == g as u32);
}

/// An equality read through a page-filter index gives the values of exactly
/// the rows of the source whose indexed value is the key: what an equality
/// read through a sorted index over the same column gives.
pub proof fn law_bloom_read_is_scan<F: Fn(usize) -> u32>(
    target: Target,
    column: nat,
    source_rgs: Seq<i32>,
    source_pages: Seq<i32>,
    blooms: Seq<Seq<u8>>,
    num_blocks: F,
    key: i64,
)
    requires
        whole(target.source, column, i64_source(target.source, column)),
        readable(target.source, i64_values(target.source, target.column)),
        index_named(target.indexes, target.name, 0) is Some,
        ({
            let i = index_named(target.indexes, target.name, 0)->Some_0;
            let kind = target.indexes[i as int].kind;
            &&& kind is BloomPage
            &&& leaf_named(target.source, kind->BloomPage_source_column) == Ok::<nat, Fault>(
                column,
            )
        }),
        holds_filters(source_rgs, source_pages, blooms, target.source, column, num_blocks),
        forall|n: usize, b: u32| #[trigger]
            call_ensures(num_blocks, (n,), b) ==> 1 <= b && 32 * b <= i32::MAX,
    ensures
        target.page_matches(
            candidates(source_rgs, source_pages, blooms, i64_hash(key), 0),
            key,
        ) == (Outcome {
            emitted: kept(
                i64_values(target.source, target.column),
                wanted_rows(
                    i64_source(target.source, column),
                    same_key(SortKey::Int(key as int)),
                ),
                0,
                target.source.row_groups@.len(),
            ),
            fault: None::<Fault>,
        }),
{
    let file = target.source;
    let n = file.row_groups@.len();
    let source = i64_source(file, column);
    let indexed = i64_values(file, column);
    let values = i64_values(file, target.column);
    let list = page_list(file, column, n);
    let told = candidates(source_rgs, source_pages, blooms, i64_hash(key), 0).emitted;
    law_probe_misses_no_page(source_rgs, source_pages, blooms, file, column, num_blocks, key, 0);
    lemma_page_list(file, column, n);
    let hits = page_hits(told);
    assert forall|k: int| 0 <= k < hits.len() implies (#[trigger] hits[k]).row_group < n
        && hits[k].page < layouts(file, hits[k].row_group as nat, column).emitted.len() by {
        assert(list.contains(told[k]));
        let i = choose|i: int| 0 <= i < list.len() && list[i] == told[k];
        assert(list[i].0 < n);
    }
    assert forall|g: nat| g < n implies (#[trigger] indexed(g)) is Ok && indexed(g)->Ok_0.len()
        <= file.row_groups@[g as int].num_rows by {
        assert(group_whole(file, column, source, g));
    }
    let cut = with_key(indexed, key);
    lemma_read_cut(file, column, source, hits, Reach::Pages, cut, target.column, values, 0);
    let groups = assembled(file, column, hits, Reach::Pages, 0).emitted;
    lemma_groups_with(file, groups, column, indexed, key);
    let wide = named_rows(file, column, hits, Reach::Pages);
    let chosen = cut_rows(wide, cut);
    let exact = wanted_rows(source, same_key(SortKey::Int(key as int)));
    assert forall|g: nat| 0 <= g < n implies #[trigger] chosen(g) == exact(g) by {
        lemma_chosen_is_wanted(file, column, told, key, g);
    }
    lemma_kept_same(values, chosen, exact, 0, n);
    if told.len() == 0 {
        assert(groups =~= Seq::empty());
        assert(cut_groups(groups, cut) =~= Seq::empty());
    }
}

/// The rows of named pages with the key are the rows with the key.
proof fn lemma_chosen_is_wanted(
    file: ParquetFile,
    column: nat,
    told: Seq<(u32, u32)>,
    key: i64,
    g: nat,
)
    requires
        whole(file, column, i64_source(file, column)),
        g < file.row_groups@.len(),
        ({
            let list = page_list(file, column, file.row_groups@.len());
            forall|i: int|
                0 <= i < list.len() && page_values(
                    file,
                    column,
                    list[i].0,
                    list[i].1,
                ).contains(key) ==> told.contains(#[trigger] list[i])
        }),
    ensures
        cut_rows(
            named_rows(file, column, page_hits(told), Reach::Pages),
            with_key(i64_values(file, column), key),
        )(g) == wanted_rows(
            i64_source(file, column),
            same_key(SortKey::Int(key as int)),
        )(g),
{
    let source = i64_source(file, column);
    let wide = named_rows(file, column, page_hits(told), Reach::Pages);
    let chosen = cut_rows(wide, with_key(i64_values(file, column), key))(g);
    let exact = wanted_rows(source, same_key(SortKey::Int(key as int)))(g);
    assert(group_whole(file, column, source, g));
    let v = file.i64s(g, column)->Ok_0;
    assert(source(g)->Ok_0.len() == v.len());
    assert(chosen.len() == exact.len());
    assert forall|r: int| 0 <= r < v.len() implies (#[trigger] exact[r]) == chosen[r] by {
        let ks = source(g)->Ok_0[r];
        assert(ks == seq![v[r].key()]);
        assert(ks[0] == SortKey::Int(v[r] as int));
        if v[r] == key {
            lemma_key_page_named(file, column, told, key, g, r as nat);
        }
    }
    assert(chosen =~= exact);
}

/// That one page comes before another in a file.
pub open spec fn earlier(a: (u32, u32), b: (u32, u32)) -> bool {
    a.0 < b.0 || (a.0 == b.0 && a.1 < b.1)
}

/// The list of pages ascends.
proof fn lemma_page_list_ascends(file: ParquetFile, column: nat, n: nat)
    requires
        n <= 0x1_0000_0000,
    ensures
        forall|i: int, j: int|
            0 <= i < j < page_list(file, column, n).len() ==> earlier(
                #[trigger] page_list(file, column, n)[i],
                #[trigger] page_list(file, column, n)[j],
            ),
    decreases n,
{
    if n > 0 {
        let m = (n - 1) as nat;
        let list = page_list(file, column, n);
        let head = page_list(file, column, m);
        let tail = group_pages(file, column, m);
        let pages = layouts(file, m, column).emitted;
        lemma_page_list_ascends(file, column, m);
        lemma_page_list(file, column, m);
        law_pages_share_out_rows(file, m, column);
        assert(pages.len() <= 0x1_0000_0000) by {
            if pages.len() > 0x1_0000_0000 {
                assert(pages[0x1_0000_0000].page_idx == 0x1_0000_0000);
            }
        }
        assert(list == head + tail);
        assert forall|i: int, j: int| 0 <= i < j < list.len() implies earlier(
            #[trigger] list[i],
            #[trigger] list[j],
        ) by {
            if i < head.len() {
                assert(list[i] == head[i]);
                assert(head[i].0 < m);
            } else {
                assert(list[i] == tail[i - head.len()]);
            }
            if j < head.len() {
                assert(list[j] == head[j]);
            } else {
                assert(list[j] == tail[j - head.len()]);
            }
        }
    }
}

/// What a probe names is in order of the pages, each page once.
pub proof fn law_probed_pages_ascend<F: Fn(usize) -> u32>(
    source_rgs: Seq<i32>,
    source_pages: Seq<i32>,
    blooms: Seq<Seq<u8>>,
    file: ParquetFile,
    column: nat,
    num_blocks: F,
    hash: u64,
)
    requires
        file.row_groups@.len() <= 0x1_0000_0000,
        holds_filters(source_rgs, source_pages, blooms, file, column, num_blocks),
    ensures
        ({
            let told = candidates(source_rgs, source_pages, blooms, hash, 0).emitted;
            forall|i: int, j: int|
                0 <= i < j < told.len() ==> earlier(#[trigger] told[i], #[trigger] told[j])
        }),
{
    lemma_page_list_ascends(file, column, file.row_groups@.len());
    lemma_told_ascends(source_rgs, source_pages, blooms, file, column, num_blocks, hash, 0);
}

proof fn lemma_told_ascends<F: Fn(usize) -> u32>(
    source_rgs: Seq<i32>,
    source_pages: Seq<i32>,
    blooms: Seq<Seq<u8>>,
    file: ParquetFile,
    column: nat,
    num_blocks: F,
    hash: u64,
    from: nat,
)
    requires
        holds_filters(source_rgs, source_pages, blooms, file, column, num_blocks),
        ({
            let list = page_list(file, column, file.row_groups@.len());
            forall|i: int, j: int|
                0 <= i < j < list.len() ==> earlier(#[trigger] list[i], #[trigger] list[j])
        }),
    ensures
        ({
            let list = page_list(file, column, file.row_groups@.len());
            let told = candidates(source_rgs, source_pages, blooms, hash, from).emitted;
            &&& forall|i: int, j: int|
                0 <= i < j < told.len() ==> earlier(#[trigger] told[i], #[trigger] told[j])
            &&& forall|k: int|
                0 <= k < told.len() ==> exists|i: int|
                    from <= i < list.len() && #[trigger] told[k] == #[trigger] list[i]
        }),
    decreases blooms.len() - from,
{
    let list = page_list(file, column, file.row_groups@.len());
    if from < blooms.len() && filter_in(blooms[from as int]) is Ok {
        let at = from as int;
        lemma_told_ascends(
            source_rgs,
            source_pages,
            blooms,
            file,
            column,
            num_blocks,
            hash,
            from + 1,
        );
        let rest = candidates(source_rgs, source_pages, blooms, hash, from + 1).emitted;
        let told = candidates(source_rgs, source_pages, blooms, hash, from).emitted;
        let named = contains(filter_in(blooms[at])->Ok_0, hash);
        assert((low32(source_rgs[at] as int), low32(source_pages[at] as int)) == list[at]) by {
            assert(source_rgs[at] == wrap32(list[at].0 as int));
            assert(source_pages[at] == wrap32(list[at].1 as int));
        }
        let shift: int = if named {
            1
        } else {
            0
        };
        assert(told.len() == shift + rest.len());
        assert forall|k: int| 0 <= k < told.len() implies exists|i: int|
            from <= i < list.len() && #[trigger] told[k] == #[trigger] list[i] by {
            if k < shift {
                assert(told[k] == list[at]);
            } else {
                assert(told[k] == rest[k - shift]);
                let i = choose|i: int|
                    from + 1 <= i < list.len() && rest[k - shift] == #[trigger] list[i];
                assert(told[k] == list[i]);
            }
        }
        assert forall|i: int, j: int| 0 <= i < j < told.len() implies earlier(
            #[trigger] told[i],
            #[trigger] told[j],
        ) by {
            assert(told[j] == rest[j - shift]);
            if i < shift {
                let q = choose|q: int|
                    from + 1 <= q < list.len() && rest[j - shift] == #[trigger] list[q];
                assert(earlier(list[at], list[q]));
            } else {
                assert(told[i] == rest[i - shift]);
            }
        }
    }
}

} // verus!
