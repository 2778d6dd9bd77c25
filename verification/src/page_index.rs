//! Page skipping by column index.
//!
//! A column index records the least and the greatest value of each data
//! page of a chunk, and which pages hold nothing but nulls. A range query
//! needs only the pages whose bounds meet its range.

use vstd::prelude::*;

use crate::bits::{field, read_field, read_wide_field, BitPos};
use crate::error::{reports, CodecError, Fault, Outcome, Result};
use crate::packing_laws::{law_plain_i32_reads_back, law_plain_i64_reads_back};
use crate::plain::{plain_bytes_i32, plain_bytes_i64};
use crate::text::{dec, text1};
use crate::wrap::{signed32, signed64, wrap32, wrap64};

verus! {

/// Per data page of a column chunk: whether it is all null, and its bounds
/// as plainly encoded values.
#[derive(Debug)]
pub struct ColumnIndex {
    pub null_pages: Vec<bool>,
    pub min_values: Vec<Vec<u8>>,
    pub max_values: Vec<Vec<u8>>,
}

/// A bound of a page: a 32-bit integer, or the fault of its encoding.
pub open spec fn bound_i32(bytes: Seq<u8>) -> std::result::Result<int, Fault> {
    if bytes.len() != 4 {
        Err(
            Fault::Decompress(
                "ColumnIndex i32 stat: expected 4 bytes, got "@ + dec(bytes.len()) + ""@,
            ),
        )
    } else {
        Ok(wrap32(field(bytes, 0, 32) as int) as int)
    }
}

/// A bound of a page: a 64-bit integer, or the fault of its encoding.
pub open spec fn bound_i64(bytes: Seq<u8>) -> std::result::Result<int, Fault> {
    if bytes.len() != 8 {
        Err(
            Fault::Decompress(
                "ColumnIndex i64 stat: expected 8 bytes, got "@ + dec(bytes.len()) + ""@,
            ),
        )
    } else {
        Ok(wrap64(field(bytes, 0, 64) as int) as int)
    }
}

/// Whether page `i` can hold a value of `[lo, hi]`; pages of nulls cannot.
pub open spec fn page_meets(
    idx: ColumnIndex,
    i: int,
    lo: int,
    hi: int,
    bound: spec_fn(Seq<u8>) -> std::result::Result<int, Fault>,
) -> std::result::Result<bool, Fault> {
    if idx.null_pages@[i] {
        Ok(false)
    } else {
        match bound(idx.min_values@[i]@) {
            Err(f) => Err(f),
            Ok(least) => match bound(idx.max_values@[i]@) {
                Err(f) => Err(f),
                Ok(greatest) => Ok(greatest >= lo && least <= hi),
            },
        }
    }
}

/// The selection of the pages from `i` on, up to the first malformed bound.
pub open spec fn select_from(
    idx: ColumnIndex,
    i: nat,
    lo: int,
    hi: int,
    bound: spec_fn(Seq<u8>) -> std::result::Result<int, Fault>,
) -> Outcome<bool>
    decreases idx.null_pages@.len() - i,
{
    if i >= idx.null_pages@.len() {
        Outcome { emitted: Seq::empty(), fault: None }
    } else {
        match page_meets(idx, i as int, lo, hi, bound) {
            Err(f) => Outcome { emitted: Seq::empty(), fault: Some(f) },
            Ok(meets) => select_from(idx, i + 1, lo, hi, bound).after(seq![meets]),
        }
    }
}

/// The selection of pages for `[lo, hi]`.
pub open spec fn selection(
    idx: ColumnIndex,
    lo: int,
    hi: int,
    bound: spec_fn(Seq<u8>) -> std::result::Result<int, Fault>,
) -> Outcome<bool> {
    let n = idx.null_pages@.len();
    if lo > hi {
        Outcome {
            emitted: Seq::empty(),
            fault: Some(Fault::Decompress("select_pages_overlapping: lo > hi"@)),
        }
    } else if idx.min_values@.len() != n || idx.max_values@.len() != n {
        Outcome {
            emitted: Seq::empty(),
            fault: Some(Fault::Decompress("ColumnIndex: null_pages/min/max length mismatch"@)),
        }
    } else {
        select_from(idx, 0, lo, hi, bound)
    }
}

pub open spec fn i32_bounds() -> spec_fn(Seq<u8>) -> std::result::Result<int, Fault> {
    |bytes: Seq<u8>| bound_i32(bytes)
}

pub open spec fn i64_bounds() -> spec_fn(Seq<u8>) -> std::result::Result<int, Fault> {
    |bytes: Seq<u8>| bound_i64(bytes)
}

fn decode_i32(bytes: &[u8]) -> (r: Result<i32>)
    ensures
        match bound_i32(bytes@) {
            Ok(v) => r is Ok && r->Ok_0 == v,
            Err(f) => r is Err && r->Err_0@ == f,
        },
{
    if bytes.len() != 4 {
        return Err(
            CodecError::Decompress(
                text1("ColumnIndex i32 stat: expected 4 bytes, got ", bytes.len() as u128, ""),
            ),
        );
    }
    Ok(signed32(read_field(bytes, &BitPos::start(), 32)))
}

fn decode_i64(bytes: &[u8]) -> (r: Result<i64>)
    ensures
        match bound_i64(bytes@) {
            Ok(v) => r is Ok && r->Ok_0 == v,
            Err(f) => r is Err && r->Err_0@ == f,
        },
{
    if bytes.len() != 8 {
        return Err(
            CodecError::Decompress(
                text1("ColumnIndex i64 stat: expected 8 bytes, got ", bytes.len() as u128, ""),
            ),
        );
    }
    Ok(signed64(read_wide_field(bytes, &BitPos::start(), 64)))
}

/// For each page of a column of 32-bit integers, whether its bounds meet
/// `[lo, hi]`, both ends counted.
pub fn select_pages_overlapping_i32(idx: &ColumnIndex, lo: i32, hi: i32) -> (r: Result<Vec<bool>>)
    ensures
        reports(r, selection(*idx, lo as int, hi as int, i32_bounds()).fault),
        r is Ok ==> r->Ok_0@ == selection(*idx, lo as int, hi as int, i32_bounds()).emitted,
{
    if lo > hi {
        return Err(CodecError::Decompress("select_pages_overlapping: lo > hi".to_string()));
    }
    let n: usize = idx.null_pages.len();
    if idx.min_values.len() != n || idx.max_values.len() != n {
        return Err(
            CodecError::Decompress("ColumnIndex: null_pages/min/max length mismatch".to_string()),
        );
    }
    let ghost whole = selection(*idx, lo as int, hi as int, i32_bounds());
    let mut out: Vec<bool> = Vec::new();
    let mut i: usize = 0;
    proof {
        assert(out@ + whole.emitted =~= whole.emitted);
    }
    while i < n
        invariant
            i <= n,
            n == idx.null_pages@.len(),
            idx.min_values@.len() == n,
            idx.max_values@.len() == n,
            whole == selection(*idx, lo as int, hi as int, i32_bounds()),
            whole == select_from(*idx, i as nat, lo as int, hi as int, i32_bounds()).after(out@),
        decreases n - i,
    {
        let ghost before = out@;
        if idx.null_pages[i] {
            out.push(false);
        } else {
            let least: i32 = match decode_i32(idx.min_values[i].as_slice()) {
                Ok(v) => v,
                Err(e) => {
                    return Err(e);
                },
            };
            let greatest: i32 = match decode_i32(idx.max_values[i].as_slice()) {
                Ok(v) => v,
                Err(e) => {
                    return Err(e);
                },
            };
            out.push(greatest >= lo && least <= hi);
        }
        proof {
            let rest = select_from(*idx, (i + 1) as nat, lo as int, hi as int, i32_bounds());
            assert(before.push(out@.last()) =~= before + seq![out@.last()]);
            assert((before + seq![out@.last()]) + rest.emitted =~= before + (seq![out@.last()]
                + rest.emitted));
        }
        i = i + 1;
    }
    proof {
        assert(out@ =~= whole.emitted);
    }
    Ok(out)
}

/// For each page of a column of 64-bit integers, whether its bounds meet
/// `[lo, hi]`, both ends counted.
pub fn select_pages_overlapping_i64(idx: &ColumnIndex, lo: i64, hi: i64) -> (r: Result<Vec<bool>>)
    ensures
        reports(r, selection(*idx, lo as int, hi as int, i64_bounds()).fault),
        r is Ok ==> r->Ok_0@ == selection(*idx, lo as int, hi as int, i64_bounds()).emitted,
{
    if lo > hi {
        return Err(CodecError::Decompress("select_pages_overlapping: lo > hi".to_string()));
    }
    let n: usize = idx.null_pages.len();
    if idx.min_values.len() != n || idx.max_values.len() != n {
        return Err(
            CodecError::Decompress("ColumnIndex: null_pages/min/max length mismatch".to_string()),
        );
    }
    let ghost whole = selection(*idx, lo as int, hi as int, i64_bounds());
    let mut out: Vec<bool> = Vec::new();
    let mut i: usize = 0;
    proof {
        assert(out@ + whole.emitted =~= whole.emitted);
    }
    while i < n
        invariant
            i <= n,
            n == idx.null_pages@.len(),
            idx.min_values@.len() == n,
            idx.max_values@.len() == n,
            whole == selection(*idx, lo as int, hi as int, i64_bounds()),
            whole == select_from(*idx, i as nat, lo as int, hi as int, i64_bounds()).after(out@),
        decreases n - i,
    {
        let ghost before = out@;
        if idx.null_pages[i] {
            out.push(false);
        } else {
            let least: i64 = match decode_i64(idx.min_values[i].as_slice()) {
                Ok(v) => v,
                Err(e) => {
                    return Err(e);
                },
            };
            let greatest: i64 = match decode_i64(idx.max_values[i].as_slice()) {
                Ok(v) => v,
                Err(e) => {
                    return Err(e);
                },
            };
            out.push(greatest >= lo && least <= hi);
        }
        proof {
            let rest = select_from(*idx, (i + 1) as nat, lo as int, hi as int, i64_bounds());
            assert(before.push(out@.last()) =~= before + seq![out@.last()]);
            assert((before + seq![out@.last()]) + rest.emitted =~= before + (seq![out@.last()]
                + rest.emitted));
        }
        i = i + 1;
    }
    proof {
        assert(out@ =~= whole.emitted);
    }
    Ok(out)
}

proof fn lemma_select_from(
    idx: ColumnIndex,
    i: nat,
    lo: int,
    hi: int,
    bound: spec_fn(Seq<u8>) -> std::result::Result<int, Fault>,
)
    requires
        i <= idx.null_pages@.len(),
        select_from(idx, i, lo, hi, bound).fault is None,
    ensures
        select_from(idx, i, lo, hi, bound).emitted.len() == idx.null_pages@.len() - i,
        forall|k: int|
            i <= k < idx.null_pages@.len() ==> page_meets(idx, k, lo, hi, bound) == Ok::<
                bool,
                Fault,
            >(#[trigger] select_from(idx, i, lo, hi, bound).emitted[k - i]),
    decreases idx.null_pages@.len() - i,
{
    if i < idx.null_pages@.len() {
        lemma_select_from(idx, i + 1, lo, hi, bound);
        let rest = select_from(idx, i + 1, lo, hi, bound).emitted;
        let all = select_from(idx, i, lo, hi, bound).emitted;
        assert forall|k: int| i <= k < idx.null_pages@.len() implies page_meets(
            idx,
            k,
            lo,
            hi,
            bound,
        ) == Ok::<bool, Fault>(#[trigger] all[k - i]) by {
            if k > i {
                assert(all[k - i] == rest[k - (i + 1)]);
            }
        }
    }
}

/// A selection has one entry per page; it leaves out every page of nulls,
/// and no page whose bounds admit a value of the range.
pub proof fn law_selection_drops_no_match(
    idx: ColumnIndex,
    lo: int,
    hi: int,
    bound: spec_fn(Seq<u8>) -> std::result::Result<int, Fault>,
    page: int,
    value: int,
)
    requires
        selection(idx, lo, hi, bound).fault is None,
        0 <= page < idx.null_pages@.len(),
        lo <= value <= hi,
    ensures
        selection(idx, lo, hi, bound).emitted.len() == idx.null_pages@.len(),
        idx.null_pages@[page] ==> !selection(idx, lo, hi, bound).emitted[page],
        !idx.null_pages@[page] && bound(idx.min_values@[page]@)->Ok_0 <= value
            && value <= bound(idx.max_values@[page]@)->Ok_0 ==> selection(
            idx,
            lo,
            hi,
            bound,
        ).emitted[page],
{
    lemma_select_from(idx, 0, lo, hi, bound);
    let all = select_from(idx, 0, lo, hi, bound).emitted;
    assert(page_meets(idx, page, lo, hi, bound) == Ok::<bool, Fault>(all[page - 0]));
}

/// That a column index holds the plain encodings of least and greatest
/// values of 32 bits, page by page; what it holds of pages of nulls does not
/// matter.
pub open spec fn holds_bounds_i32(idx: ColumnIndex, least: Seq<i32>, greatest: Seq<i32>) -> bool {
    let n = idx.null_pages@.len();
    &&& least.len() == n && greatest.len() == n
    &&& idx.min_values@.len() == n && idx.max_values@.len() == n
    &&& forall|p: int|
        0 <= p < n && !idx.null_pages@[p] ==> (#[trigger] idx.min_values@[p])@ == plain_bytes_i32(
            least[p],
        )
    &&& forall|p: int|
        0 <= p < n && !idx.null_pages@[p] ==> (#[trigger] idx.max_values@[p])@ == plain_bytes_i32(
            greatest[p],
        )
}

/// The same of values of 64 bits.
pub open spec fn holds_bounds_i64(idx: ColumnIndex, least: Seq<i64>, greatest: Seq<i64>) -> bool {
    let n = idx.null_pages@.len();
    &&& least.len() == n && greatest.len() == n
    &&& idx.min_values@.len() == n && idx.max_values@.len() == n
    &&& forall|p: int|
        0 <= p < n && !idx.null_pages@[p] ==> (#[trigger] idx.min_values@[p])@ == plain_bytes_i64(
            least[p],
        )
    &&& forall|p: int|
        0 <= p < n && !idx.null_pages@[p] ==> (#[trigger] idx.max_values@[p])@ == plain_bytes_i64(
            greatest[p],
        )
}

/// The bound that is read of a plainly encoded integer is that integer; bytes
/// of another length are none.
pub proof fn law_bounds_read_back(a: i32, b: i64)
    ensures
        forall|bytes: Seq<u8>| #[trigger] bound_i32(bytes) is Ok <==> bytes.len() == 4,
        forall|bytes: Seq<u8>| #[trigger] bound_i64(bytes) is Ok <==> bytes.len() == 8,
        bound_i32(plain_bytes_i32(a)) == Ok::<int, Fault>(a as int),
        bound_i64(plain_bytes_i64(b)) == Ok::<int, Fault>(b as int),
{
    let none = Seq::<u8>::empty();
    law_plain_i32_reads_back(a, none);
    law_plain_i64_reads_back(b, none);
    assert(plain_bytes_i32(a) + none =~= plain_bytes_i32(a));
    assert(plain_bytes_i64(b) + none =~= plain_bytes_i64(b));
}

/// Where every page that is not of nulls meets the bounds that can be read,
/// the selection is complete.
proof fn lemma_select_all(
    idx: ColumnIndex,
    i: nat,
    lo: int,
    hi: int,
    bound: spec_fn(Seq<u8>) -> std::result::Result<int, Fault>,
)
    requires
        i <= idx.null_pages@.len(),
        forall|p: int|
            i <= p < idx.null_pages@.len() ==> #[trigger] page_meets(idx, p, lo, hi, bound) is Ok,
    ensures
        select_from(idx, i, lo, hi, bound).fault is None,
    decreases idx.null_pages@.len() - i,
{
    if i < idx.null_pages@.len() {
        assert(page_meets(idx, i as int, lo, hi, bound) is Ok);
        lemma_select_all(idx, i + 1, lo, hi, bound);
    }
}

/// Of an index that holds the bounds of its pages, exactly the pages are
/// selected that are not of nulls and whose least value does not lie above
/// the range, nor their greatest below it.
pub proof fn law_selection_i32_is_overlap(
    idx: ColumnIndex,
    least: Seq<i32>,
    greatest: Seq<i32>,
    lo: i32,
    hi: i32,
)
    requires
        holds_bounds_i32(idx, least, greatest),
        lo <= hi,
    ensures
        ({
            let o = selection(idx, lo as int, hi as int, i32_bounds());
            &&& o.fault is None
            &&& o.emitted.len() == idx.null_pages@.len()
            &&& forall|p: int|
                0 <= p < idx.null_pages@.len() ==> #[trigger] o.emitted[p] == (
                !idx.null_pages@[p] && least[p] <= hi && lo <= greatest[p])
        }),
{
    let o = selection(idx, lo as int, hi as int, i32_bounds());
    assert forall|p: int| 0 <= p < idx.null_pages@.len() implies #[trigger] page_meets(
        idx,
        p,
        lo as int,
        hi as int,
        i32_bounds(),
    ) == Ok::<bool, Fault>(!idx.null_pages@[p] && least[p] <= hi && lo <= greatest[p]) by {
        law_bounds_read_back(least[p], 0);
        law_bounds_read_back(greatest[p], 0);
        if !idx.null_pages@[p] {
            assert(idx.min_values@[p]@ == plain_bytes_i32(least[p]));
            assert(idx.max_values@[p]@ == plain_bytes_i32(greatest[p]));
        }
    }
    lemma_select_all(idx, 0, lo as int, hi as int, i32_bounds());
    lemma_select_from(idx, 0, lo as int, hi as int, i32_bounds());
    assert forall|p: int| 0 <= p < idx.null_pages@.len() implies #[trigger] o.emitted[p] == (
    !idx.null_pages@[p] && least[p] <= hi && lo <= greatest[p]) by {
        assert(page_meets(idx, p, lo as int, hi as int, i32_bounds()) == Ok::<bool, Fault>(
            select_from(idx, 0, lo as int, hi as int, i32_bounds()).emitted[p - 0],
        ));
    }
}

/// The same of pages of 64-bit integers.
pub proof fn law_selection_i64_is_overlap(
    idx: ColumnIndex,
    least: Seq<i64>,
    greatest: Seq<i64>,
    lo: i64,
    hi: i64,
)
    requires
        holds_bounds_i64(idx, least, greatest),
        lo <= hi,
    ensures
        ({
            let o = selection(idx, lo as int, hi as int, i64_bounds());
            &&& o.fault is None
            &&& o.emitted.len() == idx.null_pages@.len()
            &&& forall|p: int|
                0 <= p < idx.null_pages@.len() ==> #[trigger] o.emitted[p] == (
                !idx.null_pages@[p] && least[p] <= hi && lo <= greatest[p])
        }),
{
    let o = selection(idx, lo as int, hi as int, i64_bounds());
    assert forall|p: int| 0 <= p < idx.null_pages@.len() implies #[trigger] page_meets(
        idx,
        p,
        lo as int,
        hi as int,
        i64_bounds(),
    ) == Ok::<bool, Fault>(!idx.null_pages@[p] && least[p] <= hi && lo <= greatest[p]) by {
        law_bounds_read_back(0, least[p]);
        law_bounds_read_back(0, greatest[p]);
        if !idx.null_pages@[p] {
            assert(idx.min_values@[p]@ == plain_bytes_i64(least[p]));
            assert(idx.max_values@[p]@ == plain_bytes_i64(greatest[p]));
        }
    }
    lemma_select_all(idx, 0, lo as int, hi as int, i64_bounds());
    lemma_select_from(idx, 0, lo as int, hi as int, i64_bounds());
    assert forall|p: int| 0 <= p < idx.null_pages@.len() implies #[trigger] o.emitted[p] == (
    !idx.null_pages@[p] && least[p] <= hi && lo <= greatest[p]) by {
        assert(page_meets(idx, p, lo as int, hi as int, i64_bounds()) == Ok::<bool, Fault>(
            select_from(idx, 0, lo as int, hi as int, i64_bounds()).emitted[p - 0],
        ));
    }
}

} // verus!
