//! The rows of a column chunk's pages.

use vstd::prelude::*;

use crate::error::{reports, CodecError, Fault, Outcome, Result};
use crate::index::file::{PageHeader, PageType, ParquetFile};

verus! {

/// The rows of one data page.
#[derive(Debug, Clone, Copy, PartialEq, Eq, Structural)]
pub struct DataPageLayout {
    /// The number of data pages before it in the chunk.
    pub page_idx: u32,
    /// The number of rows before it in the row group.
    pub first_row: usize,
    /// The number of its rows.
    pub num_values: usize,
}

pub open spec fn is_data(page: PageHeader) -> bool {
    page.page_type == PageType::DataPage || page.page_type == PageType::DataPageV2
}

/// The value count of a data page, from whichever header it has.
pub open spec fn value_count(page: PageHeader) -> std::result::Result<nat, Fault> {
    let n = match page.v1_num_values {
        Some(n) => Some(n),
        None => page.v2_num_values,
    };
    match n {
        None => Err(Fault::InvalidInput("data page missing both V1 and V2 header"@)),
        Some(n) => if n < 0 {
            Err(Fault::InvalidInput("data page header has a negative num_values"@))
        } else {
            Ok(n as nat)
        },
    }
}

/// The layouts of the data pages from `at` on, after `page_idx` data pages
/// with `first_row` rows. Dictionary and index pages hold no rows.
pub open spec fn layouts_from(
    pages: Seq<PageHeader>,
    at: nat,
    page_idx: nat,
    first_row: nat,
) -> Outcome<DataPageLayout>
    decreases pages.len() - at,
{
    if at >= pages.len() {
        Outcome { emitted: Seq::empty(), fault: None }
    } else if !is_data(pages[at as int]) {
        layouts_from(pages, at + 1, page_idx, first_row)
    } else {
        match value_count(pages[at as int]) {
            Err(f) => Outcome { emitted: Seq::empty(), fault: Some(f) },
            Ok(n) => if first_row + n > usize::MAX || page_idx >= u32::MAX {
                Outcome {
                    emitted: Seq::empty(),
                    fault: Some(Fault::InvalidInput("column chunk has too many rows"@)),
                }
            } else {
                layouts_from(pages, at + 1, page_idx + 1, first_row + n).after(
                    seq![
                        DataPageLayout {
                            page_idx: page_idx as u32,
                            first_row: first_row as usize,
                            num_values: n as usize,
                        },
                    ],
                )
            },
        }
    }
}

/// The layouts of the data pages of a column chunk.
pub open spec fn layouts(file: ParquetFile, row_group: nat, column: nat) -> Outcome<
    DataPageLayout,
> {
    match file.chunk_at(row_group, column) {
        Err(f) => Outcome { emitted: Seq::empty(), fault: Some(f) },
        Ok(d) => layouts_from(d.pages@, 0, 0, 0),
    }
}

fn data_page_num_values(page: &PageHeader) -> (r: Result<usize>)
    ensures
        match value_count(*page) {
            Ok(n) => r is Ok && r->Ok_0 == n,
            Err(f) => reports(r, Some(f)),
        },
{
    let n: i32 = match page.v1_num_values {
        Some(n) => n,
        None => match page.v2_num_values {
            Some(n) => n,
            None => {
                return Err(
                    CodecError::InvalidInput("data page missing both V1 and V2 header".to_string()),
                );
            },
        },
    };
    if n < 0 {
        return Err(
            CodecError::InvalidInput("data page header has a negative num_values".to_string()),
        );
    }
    Ok(n as usize)
}

/// The layouts of the data pages of a column chunk, in order.
pub fn walk_data_pages(file: &ParquetFile, row_group: usize, column: usize) -> (r: Result<
    Vec<DataPageLayout>,
>)
    ensures
        reports(r, layouts(*file, row_group as nat, column as nat).fault),
        r is Ok ==> r->Ok_0@ == layouts(*file, row_group as nat, column as nat).emitted,
{
    let chunk = match file.chunk(row_group, column) {
        Ok(c) => c,
        Err(e) => {
            return Err(e);
        },
    };
    let ghost whole = layouts(*file, row_group as nat, column as nat);
    let pages = &chunk.pages;
    let mut out: Vec<DataPageLayout> = Vec::new();
    let mut page_idx: u32 = 0;
    let mut first_row: usize = 0;
    let mut i: usize = 0;
    proof {
        assert(out@ + whole.emitted =~= whole.emitted);
    }
    while i < pages.len()
        invariant
            i <= pages@.len(),
            whole == layouts(*file, row_group as nat, column as nat),
            whole == layouts_from(pages@, i as nat, page_idx as nat, first_row as nat).after(out@),
        decreases pages@.len() - i,
    {
        let ghost before = out@;
        if pages[i].page_type == PageType::DataPage || pages[i].page_type == PageType::DataPageV2 {
            let n: usize = match data_page_num_values(&pages[i]) {
                Ok(n) => n,
                Err(e) => {
                    return Err(e);
                },
            };
            if n > usize::MAX - first_row || page_idx == u32::MAX {
                return Err(CodecError::InvalidInput("column chunk has too many rows".to_string()));
            }
            let layout = DataPageLayout { page_idx, first_row, num_values: n };
            out.push(layout);
            first_row = first_row + n;
            page_idx = page_idx + 1;
            proof {
                let rest = layouts_from(pages@, (i + 1) as nat, page_idx as nat, first_row as nat);
                assert(before + (seq![layout] + rest.emitted) =~= out@ + rest.emitted);
            }
        }
        i = i + 1;
    }
    proof {
        assert(out@ =~= whole.emitted);
    }
    Ok(out)
}

/// That layouts follow one another without gap: each page has the next
/// ordinal and starts where the one before it ends.
pub open spec fn contiguous(list: Seq<DataPageLayout>, page_idx: nat, first_row: nat) -> bool {
    &&& forall|i: int|
        0 <= i < list.len() ==> (#[trigger] list[i]).page_idx == page_idx + i
    &&& list.len() > 0 ==> list[0].first_row == first_row
    &&& forall|i: int|
        0 < i < list.len() ==> (#[trigger] list[i]).first_row == list[i - 1].first_row + list[i
            - 1].num_values
}

/// The rows of all pages of a list.
pub open spec fn total_rows(list: Seq<DataPageLayout>) -> nat
    decreases list.len(),
{
    if list.len() == 0 {
        0
    } else {
        total_rows(list.drop_last()) + list.last().num_values as nat
    }
}

proof fn lemma_layouts_from(pages: Seq<PageHeader>, at: nat, page_idx: nat, first_row: nat)
    ensures
        contiguous(layouts_from(pages, at, page_idx, first_row).emitted, page_idx, first_row),
    decreases pages.len() - at,
{
    if at < pages.len() {
        if !is_data(pages[at as int]) {
            lemma_layouts_from(pages, at + 1, page_idx, first_row);
        } else if let Ok(n) = value_count(pages[at as int]) {
            if first_row + n <= usize::MAX && page_idx < u32::MAX {
                lemma_layouts_from(pages, at + 1, page_idx + 1, first_row + n);
                let rest = layouts_from(pages, at + 1, page_idx + 1, first_row + n).emitted;
                let list = layouts_from(pages, at, page_idx, first_row).emitted;
                assert forall|i: int| 0 <= i < list.len() implies (#[trigger] list[i]).page_idx
                    == page_idx + i by {
                    if i > 0 {
                        assert(list[i] == rest[i - 1]);
                    }
                }
                assert forall|i: int| 0 < i < list.len() implies (#[trigger] list[i]).first_row
                    == list[i - 1].first_row + list[i - 1].num_values by {
                    assert(list[i] == rest[i - 1]);
                    if i > 1 {
                        assert(list[i - 1] == rest[i - 2]);
                    }
                }
            }
        }
    }
}

/// The rows of a page are counted by 31 bits.
pub proof fn lemma_layouts_small(pages: Seq<PageHeader>, at: nat, page_idx: nat, first_row: nat)
    ensures
        forall|i: int|
            0 <= i < layouts_from(pages, at, page_idx, first_row).emitted.len() ==> (
            #[trigger] layouts_from(pages, at, page_idx, first_row).emitted[i]).num_values
                <= i32::MAX,
    decreases pages.len() - at,
{
    if at < pages.len() {
        if !is_data(pages[at as int]) {
            lemma_layouts_small(pages, at + 1, page_idx, first_row);
        } else if let Ok(n) = value_count(pages[at as int]) {
            if first_row + n <= usize::MAX && page_idx < u32::MAX {
                lemma_layouts_small(pages, at + 1, page_idx + 1, first_row + n);
                let rest = layouts_from(pages, at + 1, page_idx + 1, first_row + n).emitted;
                let list = layouts_from(pages, at, page_idx, first_row).emitted;
                assert forall|i: int| 0 <= i < list.len() implies (#[trigger] list[i]).num_values
                    <= i32::MAX by {
                    if i > 0 {
                        assert(list[i] == rest[i - 1]);
                    }
                }
            }
        }
    }
}

/// The pages of a chunk are numbered from zero and share out its rows: each
/// starts where the one before it ends.
pub proof fn law_pages_share_out_rows(file: ParquetFile, row_group: nat, column: nat)
    ensures
        contiguous(layouts(file, row_group, column).emitted, 0, 0),
{
    if let Ok(d) = file.chunk_at(row_group, column) {
        lemma_layouts_from(d.pages@, 0, 0, 0);
    }
}

/// Where a column chunk lies in a file: from its dictionary page where that
/// comes before its data pages, over its compressed size.
pub fn chunk_byte_range(
    dictionary_page_offset: Option<i64>,
    data_page_offset: i64,
    total_compressed_size: i64,
) -> (r: Option<(u64, u64)>)
    ensures
        ({
            let start = match dictionary_page_offset {
                Some(d) => if d < data_page_offset {
                    d
                } else {
                    data_page_offset
                },
                None => data_page_offset,
            };
            r == if start < 0 || total_compressed_size < 0 {
                None
            } else {
                Some((start as u64, total_compressed_size as u64))
            }
        }),
{
    let start: i64 = match dictionary_page_offset {
        Some(d) => if d < data_page_offset {
            d
        } else {
            data_page_offset
        },
        None => data_page_offset,
    };
    if start < 0 || total_compressed_size < 0 {
        None
    } else {
        Some((start as u64, total_compressed_size as u64))
    }
}

/// The value counts of the data pages from `at` on: of the first version from
/// the first header, of the second version from the second.
pub open spec fn counts_from(pages: Seq<PageHeader>, at: nat) -> Seq<nat>
    decreases pages.len() - at,
{
    if at >= pages.len() {
        Seq::empty()
    } else {
        let rest = counts_from(pages, at + 1);
        match pages[at as int].page_type {
            PageType::DataPage => seq![pages[at as int].v1_num_values->Some_0 as nat] + rest,
            PageType::DataPageV2 => seq![pages[at as int].v2_num_values->Some_0 as nat] + rest,
            PageType::DictionaryPage => rest,
            PageType::IndexPage => rest,
        }
    }
}

/// That every data page has the header of its version, and no other, with a
/// count.
pub open spec fn pages_counted(pages: Seq<PageHeader>) -> bool {
    forall|i: int|
        0 <= i < pages.len() ==> match (#[trigger] pages[i]).page_type {
            PageType::DataPage => pages[i].v1_num_values matches Some(n) && n >= 0,
            PageType::DataPageV2 => pages[i].v1_num_values is None && (
            pages[i].v2_num_values matches Some(n) && n >= 0),
            _ => true,
        }
}

/// The sum of counts.
pub open spec fn count_sum(counts: Seq<nat>) -> nat
    decreases counts.len(),
{
    if counts.len() == 0 {
        0
    } else {
        counts[0] + count_sum(counts.skip(1))
    }
}

proof fn lemma_layouts_count(pages: Seq<PageHeader>, at: nat, page_idx: nat, first_row: nat)
    requires
        pages_counted(pages),
        first_row + count_sum(counts_from(pages, at)) <= usize::MAX,
        page_idx + counts_from(pages, at).len() <= u32::MAX,
    ensures
        layouts_from(pages, at, page_idx, first_row).fault is None,
        layouts_from(pages, at, page_idx, first_row).emitted.map_values(
            |p: DataPageLayout| p.num_values as nat,
        ) == counts_from(pages, at),
    decreases pages.len() - at,
{
    let list = layouts_from(pages, at, page_idx, first_row).emitted;
    let counts = counts_from(pages, at);
    if at < pages.len() {
        let page = pages[at as int];
        if is_data(page) {
            let n = counts[0];
            let rest = counts_from(pages, at + 1);
            assert(counts.skip(1) =~= rest);
            lemma_layouts_count(pages, at + 1, page_idx + 1, first_row + n);
            let later = layouts_from(pages, at + 1, page_idx + 1, first_row + n).emitted;
            let read = later.map_values(|p: DataPageLayout| p.num_values as nat);
            assert(list.map_values(|p: DataPageLayout| p.num_values as nat) =~= seq![n] + read);
        } else {
            lemma_layouts_count(pages, at + 1, page_idx, first_row);
        }
    } else {
        assert(list.map_values(|p: DataPageLayout| p.num_values as nat) =~= counts);
    }
}

/// A chunk has a layout for each of its data pages, with the page's count of
/// values, and none for its other pages.
pub proof fn law_layouts_are_the_data_pages(pages: Seq<PageHeader>)
    requires
        pages_counted(pages),
        count_sum(counts_from(pages, 0)) <= usize::MAX,
        counts_from(pages, 0).len() <= u32::MAX,
    ensures
        layouts_from(pages, 0, 0, 0).fault is None,
        layouts_from(pages, 0, 0, 0).emitted.map_values(
            |p: DataPageLayout| p.num_values as nat,
        ) == counts_from(pages, 0),
{
    lemma_layouts_count(pages, 0, 0, 0);
}

} // verus!
