//! Column chunks that keep their dictionary.
//!
//! A chunk is a list of segments, one per data page: indices into the
//! chunk's dictionary, or plain values. A predicate over a chunk is
//! evaluated once per dictionary entry, not once per row.

use std::sync::Arc;

use vstd::prelude::*;

use crate::bits::{bit, get_bit, holds_rows, lemma_pack_holds, pack};

verus! {

/// A column chunk as its data pages hold it. `dict` is absent only where no
/// page refers to one.
#[derive(Debug, Clone)]
pub struct DictColumnChunk<T: Copy> {
    pub dict: Option<Arc<Vec<T>>>,
    pub segments: Vec<Segment<T>>,
    pub num_values: usize,
}

/// The rows of one data page.
#[derive(Debug, Clone)]
pub enum Segment<T: Copy> {
    DictIndices(Vec<u32>),
    Plain(Vec<T>),
}

/// The values of a segment's rows.
pub open spec fn segment_rows<T: Copy>(segment: Segment<T>, dict: Seq<T>) -> Seq<T> {
    match segment {
        Segment::DictIndices(idx) => idx@.map_values(|i: u32| dict[i as int]),
        Segment::Plain(values) => values@,
    }
}

/// The values of the rows of all segments, in order.
pub open spec fn rows_of<T: Copy>(segments: Seq<Segment<T>>, dict: Seq<T>) -> Seq<T>
    decreases segments.len(),
{
    if segments.len() == 0 {
        Seq::empty()
    } else {
        rows_of(segments.drop_last(), dict) + segment_rows(segments.last(), dict)
    }
}

/// That every index of a segment lies in the dictionary.
pub open spec fn segment_inside<T: Copy>(segment: Segment<T>, size: nat) -> bool {
    match segment {
        Segment::DictIndices(idx) => forall|i: int|
            0 <= i < idx@.len() ==> #[trigger] idx@[i] < size,
        Segment::Plain(_) => true,
    }
}

/// The values for which a mask holds.
pub open spec fn masked<T>(values: Seq<T>, mask: Seq<bool>) -> Seq<T>
    decreases values.len(),
{
    if values.len() == 0 {
        Seq::empty()
    } else if mask[values.len() - 1] {
        masked(values.drop_last(), mask).push(values.last())
    } else {
        masked(values.drop_last(), mask)
    }
}

/// How many entries are true.
pub open spec fn count_true(mask: Seq<bool>) -> nat
    decreases mask.len(),
{
    if mask.len() == 0 {
        0
    } else {
        count_true(mask.drop_last()) + if mask.last() {
            1nat
        } else {
            0nat
        }
    }
}

impl<T: Copy> DictColumnChunk<T> {
    /// The dictionary's values; none where there is no dictionary.
    pub open spec fn dict_values(&self) -> Seq<T> {
        match self.dict {
            Some(d) => d@,
            None => Seq::empty(),
        }
    }

    /// The values of the chunk's rows.
    pub open spec fn rows(&self) -> Seq<T> {
        rows_of(self.segments@, self.dict_values())
    }

    /// Every index lies in the dictionary.
    pub open spec fn wf(&self) -> bool {
        forall|s: int|
            0 <= s < self.segments@.len() ==> segment_inside(
                #[trigger] self.segments@[s],
                self.dict_values().len(),
            )
    }

    pub fn new(dict: Option<Arc<Vec<T>>>, segments: Vec<Segment<T>>, num_values: usize) -> (chunk:
        Self)
        ensures
            chunk.dict == dict,
            chunk.segments == segments,
            chunk.num_values == num_values,
    {
        DictColumnChunk { dict, segments, num_values }
    }

    fn entry(&self, i: u32) -> (v: T)
        requires
            i < self.dict_values().len(),
        ensures
            v == self.dict_values()[i as int],
    {
        match &self.dict {
            Some(d) => d[i as usize],
            None => vstd::pervasive::unreached(),
        }
    }

    /// Every row's value.
    pub fn collect(&self) -> (out: Vec<T>)
        requires
            self.wf(),
        ensures
            out@ == self.rows(),
    {
        let mut out: Vec<T> = Vec::new();
        let ghost dict = self.dict_values();
        let mut s: usize = 0;
        while s < self.segments.len()
            invariant
                s <= self.segments@.len(),
                self.wf(),
                dict == self.dict_values(),
                out@ == rows_of(self.segments@.take(s as int), dict),
            decreases self.segments@.len() - s,
        {
            let ghost before = out@;
            proof {
                assert(self.segments@.take(s + 1).drop_last() =~= self.segments@.take(s as int));
                assert(segment_inside(self.segments@[s as int], dict.len()));
            }
            match &self.segments[s] {
                Segment::DictIndices(idx) => {
                    let mut k: usize = 0;
                    while k < idx.len()
                        invariant
                            k <= idx@.len(),
                            dict == self.dict_values(),
                            forall|i: int| 0 <= i < idx@.len() ==> #[trigger] idx@[i] < dict.len(),
                            out@ == before + idx@.take(k as int).map_values(
                                |i: u32| dict[i as int],
                            ),
                        decreases idx@.len() - k,
                    {
                        out.push(self.entry(idx[k]));
                        proof {
                            assert(out@ =~= before + idx@.take(k + 1).map_values(
                                |i: u32| dict[i as int],
                            ));
                        }
                        k = k + 1;
                    }
                    proof {
                        assert(idx@.take(k as int) =~= idx@);
                    }
                },
                Segment::Plain(values) => {
                    let mut k: usize = 0;
                    while k < values.len()
                        invariant
                            k <= values@.len(),
                            out@ == before + values@.take(k as int),
                        decreases values@.len() - k,
                    {
                        out.push(values[k]);
                        proof {
                            assert(out@ =~= before + values@.take(k + 1));
                        }
                        k = k + 1;
                    }
                    proof {
                        assert(values@.take(k as int) =~= values@);
                    }
                },
            }
            proof {
                assert(out@ =~= before + segment_rows(self.segments@[s as int], dict));
            }
            s = s + 1;
        }
        proof {
            assert(self.segments@.take(s as int) =~= self.segments@);
        }
        out
    }
}

/// That a mask is what a predicate says of each value.
pub open spec fn judged<T, P: Fn(T) -> bool>(predicate: P, values: Seq<T>, mask: Seq<bool>) -> bool {
    &&& mask.len() == values.len()
    &&& forall|i: int|
        0 <= i < values.len() ==> call_ensures(predicate, (values[i],), #[trigger] mask[i])
}

/// The verdict of a predicate on each value of a list.
fn judge<T: Copy, P: Fn(T) -> bool>(values: &Vec<T>, predicate: &P) -> (mask: Vec<bool>)
    requires
        forall|v: T| #[trigger] call_requires(*predicate, (v,)),
    ensures
        judged(*predicate, values@, mask@),
{
    let mut mask: Vec<bool> = Vec::new();
    let mut k: usize = 0;
    while k < values.len()
        invariant
            k <= values@.len(),
            forall|v: T| #[trigger] call_requires(*predicate, (v,)),
            judged(*predicate, values@.take(k as int), mask@),
        decreases values@.len() - k,
    {
        let verdict: bool = predicate(values[k]);
        let ghost before = mask@;
        mask.push(verdict);
        proof {
            assert forall|i: int| 0 <= i < k + 1 implies call_ensures(
                *predicate,
                (values@.take(k + 1)[i],),
                #[trigger] mask@[i],
            ) by {
                if i < k {
                    assert(call_ensures(*predicate, (values@.take(k as int)[i],), before[i]));
                }
            }
        }
        k = k + 1;
    }
    proof {
        assert(values@.take(k as int) =~= values@);
    }
    mask
}

proof fn lemma_judged_concat<T, P: Fn(T) -> bool>(
    predicate: P,
    a: Seq<T>,
    b: Seq<T>,
    ma: Seq<bool>,
    mb: Seq<bool>,
)
    requires
        judged(predicate, a, ma),
        judged(predicate, b, mb),
    ensures
        judged(predicate, a + b, ma + mb),
{
    assert forall|i: int| 0 <= i < (a + b).len() implies call_ensures(
        predicate,
        ((a + b)[i],),
        #[trigger] (ma + mb)[i],
    ) by {
        if i < a.len() {
            assert((ma + mb)[i] == ma[i]);
        } else {
            assert((ma + mb)[i] == mb[i - a.len()]);
        }
    }
}

pub proof fn lemma_count_true_concat(a: Seq<bool>, b: Seq<bool>)
    ensures
        count_true(a + b) == count_true(a) + count_true(b),
        count_true(b) <= b.len(),
    decreases b.len(),
{
    if b.len() == 0 {
        assert(a + b =~= a);
    } else {
        lemma_count_true_concat(a, b.drop_last());
        assert((a + b).drop_last() =~= a + b.drop_last());
    }
}

impl<T: Copy> DictColumnChunk<T> {
    /// The verdicts of a predicate on the dictionary's entries.
    fn dict_mask<P: Fn(T) -> bool>(&self, predicate: &P) -> (mask: Vec<bool>)
        requires
            forall|v: T| #[trigger] call_requires(*predicate, (v,)),
        ensures
            judged(*predicate, self.dict_values(), mask@),
    {
        match &self.dict {
            Some(d) => judge(d, predicate),
            None => Vec::new(),
        }
    }

    /// Appends the verdicts on the rows of one segment.
    fn judge_segment<P: Fn(T) -> bool>(
        &self,
        s: usize,
        predicate: &P,
        dict_mask: &Vec<bool>,
        out: &mut Vec<bool>,
    )
        requires
            s < self.segments@.len(),
            self.wf(),
            forall|v: T| #[trigger] call_requires(*predicate, (v,)),
            judged(*predicate, self.dict_values(), dict_mask@),
        ensures
            exists|more: Seq<bool>|
                final(out)@ == #[trigger] (old(out)@ + more) && judged(
                    *predicate,
                    segment_rows(self.segments@[s as int], self.dict_values()),
                    more,
                ),
    {
        let ghost dict = self.dict_values();
        let ghost start = out@;
        let ghost rows = segment_rows(self.segments@[s as int], dict);
        proof {
            assert(segment_inside(self.segments@[s as int], dict.len()));
        }
        match &self.segments[s] {
            Segment::DictIndices(idx) => {
                let ghost more = idx@.map_values(|i: u32| dict_mask@[i as int]);
                let mut k: usize = 0;
                while k < idx.len()
                    invariant
                        k <= idx@.len(),
                        dict_mask@.len() == dict.len(),
                        forall|i: int| 0 <= i < idx@.len() ==> #[trigger] idx@[i] < dict.len(),
                        more == idx@.map_values(|i: u32| dict_mask@[i as int]),
                        out@ == start + more.take(k as int),
                    decreases idx@.len() - k,
                {
                    out.push(dict_mask[idx[k] as usize]);
                    proof {
                        assert(out@ =~= start + more.take(k + 1));
                    }
                    k = k + 1;
                }
                proof {
                    assert(more.take(k as int) =~= more);
                    assert forall|i: int| 0 <= i < rows.len() implies call_ensures(
                        *predicate,
                        (rows[i],),
                        #[trigger] more[i],
                    ) by {
                        assert(call_ensures(
                            *predicate,
                            (dict[idx@[i] as int],),
                            dict_mask@[idx@[i] as int],
                        ));
                    }
                    assert(judged(*predicate, rows, more));
                    assert(out@ == start + more);
                }
            },
            Segment::Plain(values) => {
                let mut verdicts: Vec<bool> = judge(values, predicate);
                let ghost more = verdicts@;
                out.append(&mut verdicts);
                proof {
                    assert(out@ =~= start + more);
                }
            },
        }
    }

    /// For each row, whether a predicate accepts its value. The predicate is
    /// called once per dictionary entry, and once per plain value.
    pub fn filter<P: Fn(T) -> bool>(&self, predicate: P) -> (out: Vec<bool>)
        requires
            self.wf(),
            forall|v: T| #[trigger] call_requires(predicate, (v,)),
        ensures
            judged(predicate, self.rows(), out@),
    {
        let ghost dict = self.dict_values();
        let dict_mask: Vec<bool> = self.dict_mask(&predicate);
        let mut out: Vec<bool> = Vec::new();
        let mut s: usize = 0;
        while s < self.segments.len()
            invariant
                s <= self.segments@.len(),
                self.wf(),
                dict == self.dict_values(),
                forall|v: T| #[trigger] call_requires(predicate, (v,)),
                judged(predicate, dict, dict_mask@),
                judged(predicate, rows_of(self.segments@.take(s as int), dict), out@),
            decreases self.segments@.len() - s,
        {
            let ghost before = out@;
            self.judge_segment(s, &predicate, &dict_mask, &mut out);
            proof {
                let rows = segment_rows(self.segments@[s as int], dict);
                let more = choose|more: Seq<bool>|
                    out@ == #[trigger] (before + more) && judged(predicate, rows, more);
                assert(self.segments@.take(s + 1).drop_last() =~= self.segments@.take(s as int));
                lemma_judged_concat(
                    predicate,
                    rows_of(self.segments@.take(s as int), dict),
                    rows,
                    before,
                    more,
                );
            }
            s = s + 1;
        }
        proof {
            assert(self.segments@.take(s as int) =~= self.segments@);
        }
        out
    }

    /// How many rows a predicate accepts.
    pub fn count_matching<P: Fn(T) -> bool>(&self, predicate: P) -> (n: usize)
        requires
            self.wf(),
            self.rows().len() <= usize::MAX,
            forall|v: T| #[trigger] call_requires(predicate, (v,)),
        ensures
            exists|mask: Seq<bool>| #[trigger]
                judged(predicate, self.rows(), mask) && n == count_true(mask),
    {
        let ghost dict = self.dict_values();
        let dict_mask: Vec<bool> = self.dict_mask(&predicate);
        let ghost mut mask: Seq<bool> = Seq::empty();
        let mut n: usize = 0;
        let mut s: usize = 0;
        while s < self.segments.len()
            invariant
                s <= self.segments@.len(),
                self.wf(),
                self.rows().len() <= usize::MAX,
                dict == self.dict_values(),
                forall|v: T| #[trigger] call_requires(predicate, (v,)),
                judged(predicate, dict, dict_mask@),
                judged(predicate, rows_of(self.segments@.take(s as int), dict), mask),
                n == count_true(mask),
            decreases self.segments@.len() - s,
        {
            let mut verdicts: Vec<bool> = Vec::new();
            self.judge_segment(s, &predicate, &dict_mask, &mut verdicts);
            let ghost rows = segment_rows(self.segments@[s as int], dict);
            let ghost before = mask;
            proof {
                let more = choose|more: Seq<bool>|
                    verdicts@ == #[trigger] (Seq::<bool>::empty() + more) && judged(
                        predicate,
                        rows,
                        more,
                    );
                assert(Seq::<bool>::empty() + more =~= more);
                assert(self.segments@.take(s + 1).drop_last() =~= self.segments@.take(s as int));
                lemma_judged_concat(
                    predicate,
                    rows_of(self.segments@.take(s as int), dict),
                    rows,
                    before,
                    more,
                );
                mask = before + more;
                lemma_rows_of_prefix(self.segments@, (s + 1) as nat, dict);
            }
            let mut k: usize = 0;
            while k < verdicts.len()
                invariant
                    k <= verdicts@.len(),
                    before.len() + verdicts@.len() <= usize::MAX,
                    n == count_true(before + verdicts@.take(k as int)),
                decreases verdicts@.len() - k,
            {
                proof {
                    let taken = before + verdicts@.take(k + 1);
                    assert(taken.drop_last() =~= before + verdicts@.take(k as int));
                    lemma_count_true_concat(Seq::empty(), taken);
                    lemma_count_true_concat(Seq::empty(), before + verdicts@.take(k as int));
                }
                if verdicts[k] {
                    n = n + 1;
                }
                k = k + 1;
            }
            proof {
                assert(verdicts@.take(k as int) =~= verdicts@);
            }
            s = s + 1;
        }
        proof {
            assert(self.segments@.take(s as int) =~= self.segments@);
        }
        n
    }

    /// The values of the rows for which `mask` is true.
    pub fn gather(&self, mask: &[bool]) -> (out: Vec<T>)
        requires
            self.wf(),
            mask@.len() == self.num_values,
            self.rows().len() <= mask@.len(),
        ensures
            out@ == masked(self.rows(), mask@),
    {
        let mut out: Vec<T> = Vec::new();
        let ghost dict = self.dict_values();
        let mut row: usize = 0;
        let mut s: usize = 0;
        while s < self.segments.len()
            invariant
                s <= self.segments@.len(),
                self.wf(),
                self.rows().len() <= mask@.len(),
                mask@.len() <= usize::MAX,
                dict == self.dict_values(),
                row == rows_of(self.segments@.take(s as int), dict).len(),
                out@ == masked(rows_of(self.segments@.take(s as int), dict), mask@),
            decreases self.segments@.len() - s,
        {
            let ghost done = rows_of(self.segments@.take(s as int), dict);
            let ghost rows = segment_rows(self.segments@[s as int], dict);
            proof {
                assert(segment_inside(self.segments@[s as int], dict.len()));
                assert(self.segments@.take(s + 1).drop_last() =~= self.segments@.take(s as int));
                lemma_rows_of_prefix(self.segments@, (s + 1) as nat, dict);
                assert(done + rows.take(0) =~= done);
            }
            let len: usize = match &self.segments[s] {
                Segment::DictIndices(idx) => idx.len(),
                Segment::Plain(values) => values.len(),
            };
            let mut k: usize = 0;
            while k < len
                invariant
                    k <= len,
                    s < self.segments@.len(),
                    dict == self.dict_values(),
                    segment_inside(self.segments@[s as int], dict.len()),
                    rows == segment_rows(self.segments@[s as int], dict),
                    len == rows.len(),
                    row == done.len() + k,
                    done.len() + len <= mask@.len(),
                    mask@.len() <= usize::MAX,
                    out@ == masked(done + rows.take(k as int), mask@),
                decreases len - k,
            {
                proof {
                    let taken = done + rows.take(k + 1);
                    assert(taken.drop_last() =~= done + rows.take(k as int));
                    assert(taken.last() == rows[k as int]);
                    assert(taken.len() - 1 == row);
                }
                if mask[row] {
                    let v: T = match &self.segments[s] {
                        Segment::DictIndices(idx) => self.entry(idx[k]),
                        Segment::Plain(values) => values[k],
                    };
                    out.push(v);
                }
                row = row + 1;
                k = k + 1;
            }
            proof {
                assert(rows.take(k as int) =~= rows);
            }
            s = s + 1;
        }
        proof {
            assert(self.segments@.take(s as int) =~= self.segments@);
        }
        out
    }
}

/// The first segments hold no more rows than all of them.
proof fn lemma_rows_of_prefix<T: Copy>(segments: Seq<Segment<T>>, k: nat, dict: Seq<T>)
    requires
        k <= segments.len(),
    ensures
        rows_of(segments.take(k as int), dict).len() <= rows_of(segments, dict).len(),
    decreases segments.len(),
{
    if k < segments.len() {
        lemma_rows_of_prefix(segments.drop_last(), k, dict);
        assert(segments.drop_last().take(k as int) =~= segments.take(k as int));
    } else {
        assert(segments.take(k as int) =~= segments);
    }
}

/// Gathering by a mask gives as many values as the mask has true entries.
pub proof fn law_gather_counts_mask<T>(values: Seq<T>, mask: Seq<bool>)
    requires
        mask.len() == values.len(),
    ensures
        masked(values, mask).len() == count_true(mask),
    decreases values.len(),
{
    if values.len() > 0 {
        law_gather_counts_mask(values.drop_last(), mask.drop_last());
        lemma_masked_prefix(values.drop_last(), mask, mask.drop_last());
    }
}

pub proof fn lemma_masked_prefix<T>(values: Seq<T>, a: Seq<bool>, b: Seq<bool>)
    requires
        values.len() <= a.len(),
        values.len() <= b.len(),
        forall|i: int| 0 <= i < values.len() ==> a[i] == b[i],
    ensures
        masked(values, a) == masked(values, b),
    decreases values.len(),
{
    if values.len() > 0 {
        lemma_masked_prefix(values.drop_last(), a, b);
    }
}

/// Filtering and gathering keeps exactly the rows that the predicate
/// accepts: every gathered value was accepted.
pub proof fn law_gathered_rows_were_accepted<T, P: Fn(T) -> bool>(
    predicate: P,
    values: Seq<T>,
    mask: Seq<bool>,
)
    requires
        judged(predicate, values, mask),
    ensures
        forall|k: int|
            0 <= k < masked(values, mask).len() ==> call_ensures(
                predicate,
                (#[trigger] masked(values, mask)[k],),
                true,
            ),
    decreases values.len(),
{
    if values.len() > 0 {
        let n = values.len() - 1;
        let shorter = mask.drop_last();
        assert(judged(predicate, values.drop_last(), shorter)) by {
            assert forall|i: int| 0 <= i < n implies call_ensures(
                predicate,
                (values.drop_last()[i],),
                #[trigger] shorter[i],
            ) by {
                assert(call_ensures(predicate, (values[i],), mask[i]));
            }
        }
        law_gathered_rows_were_accepted(predicate, values.drop_last(), shorter);
        lemma_masked_prefix(values.drop_last(), mask, shorter);
        let before = masked(values.drop_last(), shorter);
        assert forall|k: int| 0 <= k < masked(values, mask).len() implies call_ensures(
            predicate,
            (#[trigger] masked(values, mask)[k],),
            true,
        ) by {
            if k < before.len() {
                assert(masked(values, mask)[k] == before[k]);
            } else {
                assert(call_ensures(predicate, (values[n],), mask[n]));
            }
        }
    }
}

/// A predicate that answers alike whenever it is asked about a value.
pub open spec fn steady<T, P: Fn(T) -> bool>(predicate: P) -> bool {
    forall|v: T, a: bool, b: bool| #[trigger]
        call_ensures(predicate, (v,), a) && #[trigger] call_ensures(predicate, (v,), b) ==> a == b
}

/// A steady predicate has one list of verdicts on a list of values. So the
/// count of matching rows is the number of true entries of the filter, and
/// the number of accepted values among all the rows.
pub proof fn law_count_is_the_filters<T, P: Fn(T) -> bool>(
    predicate: P,
    values: Seq<T>,
    counted: Seq<bool>,
    filtered: Seq<bool>,
)
    requires
        steady(predicate),
        judged(predicate, values, counted),
        judged(predicate, values, filtered),
    ensures
        counted == filtered,
        count_true(counted) == masked(values, filtered).len(),
{
    assert forall|i: int| 0 <= i < counted.len() implies counted[i] == filtered[i] by {
        assert(call_ensures(predicate, (values[i],), counted[i]));
        assert(call_ensures(predicate, (values[i],), filtered[i]));
    }
    assert(counted =~= filtered);
    law_gather_counts_mask(values, filtered);
}

/// The rows of two lists of segments, one after the other.
proof fn lemma_rows_of_concat<T: Copy>(a: Seq<Segment<T>>, b: Seq<Segment<T>>, dict: Seq<T>)
    ensures
        rows_of(a + b, dict) == rows_of(a, dict) + rows_of(b, dict),
    decreases b.len(),
{
    if b.len() == 0 {
        assert(a + b =~= a);
        assert(rows_of(a, dict) + Seq::<T>::empty() =~= rows_of(a, dict));
    } else {
        lemma_rows_of_concat(a, b.drop_last(), dict);
        assert((a + b).drop_last() =~= a + b.drop_last());
        assert(rows_of(a + b, dict) =~= rows_of(a, dict) + rows_of(b, dict));
    }
}

/// That two segments hold the entries of one, in order and of its kind.
pub open spec fn split_in<T: Copy>(whole: Segment<T>, first: Segment<T>, second: Segment<T>) -> bool {
    match (whole, first, second) {
        (Segment::DictIndices(w), Segment::DictIndices(f), Segment::DictIndices(s)) => w@ == f@ + s@,
        (Segment::Plain(w), Segment::Plain(f), Segment::Plain(s)) => w@ == f@ + s@,
        _ => false,
    }
}

/// The rows of a chunk do not depend on where its pages end: one segment
/// split in two leaves them as they were.
pub proof fn law_splitting_a_segment_keeps_the_rows<T: Copy>(
    segments: Seq<Segment<T>>,
    k: int,
    first: Segment<T>,
    second: Segment<T>,
    dict: Seq<T>,
)
    requires
        0 <= k < segments.len(),
        split_in(segments[k], first, second),
    ensures
        rows_of(segments.take(k) + seq![first, second] + segments.skip(k + 1), dict) == rows_of(
            segments,
            dict,
        ),
{
    let whole = segments[k];
    let before = segments.take(k);
    let after = segments.skip(k + 1);
    assert(segment_rows(whole, dict) =~= segment_rows(first, dict) + segment_rows(second, dict));
    assert(segments =~= before.push(whole) + after);
    assert(before.push(whole).drop_last() =~= before);
    assert(before + seq![first, second] =~= before.push(first).push(second));
    assert(before.push(first).push(second).drop_last() =~= before.push(first));
    assert(before.push(first).drop_last() =~= before);
    lemma_rows_of_concat(before.push(whole), after, dict);
    lemma_rows_of_concat(before + seq![first, second], after, dict);
    assert(rows_of(before.push(first), dict) == rows_of(before, dict) + segment_rows(first, dict));
    assert(rows_of(before.push(whole), dict) =~= rows_of(before.push(first).push(second), dict));
}

/// The rows of a chunk do not depend on how a page wrote them: indices
/// replaced by the values they stand for leave them as they were.
pub proof fn law_plain_values_read_as_their_indices<T: Copy>(
    segments: Seq<Segment<T>>,
    k: int,
    plain: Vec<T>,
    dict: Seq<T>,
)
    requires
        0 <= k < segments.len(),
        segments[k] is DictIndices,
        plain@.len() == segments[k]->DictIndices_0@.len(),
        forall|i: int|
            0 <= i < plain@.len() ==> #[trigger] plain@[i]
                == dict[segments[k]->DictIndices_0@[i] as int],
    ensures
        rows_of(segments.update(k, Segment::Plain(plain)), dict) == rows_of(segments, dict),
        rows_of(seq![Segment::Plain(plain)], dict) == plain@,
{
    assert(plain@ =~= segment_rows(segments[k], dict));
    let single = seq![Segment::Plain(plain)];
    assert(single.drop_last() =~= Seq::empty());
    assert(rows_of(single.drop_last(), dict) =~= Seq::empty());
    assert(rows_of(single, dict) =~= plain@);
    let written = segments.update(k, Segment::Plain(plain));
    let before = segments.take(k);
    let after = segments.skip(k + 1);
    assert(segments =~= before.push(segments[k]) + after);
    assert(written =~= before.push(written[k]) + after);
    assert(before.push(segments[k]).drop_last() =~= before);
    assert(before.push(written[k]).drop_last() =~= before);
    lemma_rows_of_concat(before.push(segments[k]), after, dict);
    lemma_rows_of_concat(before.push(written[k]), after, dict);
}

/// Appends the values whose bit is set.
pub(crate) fn push_masked<T: Copy>(values: &Vec<T>, bitmap: &Vec<u8>, out: &mut Vec<T>, Ghost(rows): Ghost<
    Seq<bool>,
>)
    requires
        bitmap@ == pack(rows),
        values@.len() <= rows.len(),
    ensures
        final(out)@ == old(out)@ + masked(values@, rows),
{
    let ghost start = out@;
    let mut i: usize = 0;
    proof {
        lemma_pack_holds(rows);
        assert(start + masked(values@.take(0), rows) =~= start);
    }
    while i < values.len()
        invariant
            i <= values@.len(),
            bitmap@ == pack(rows),
            holds_rows(bitmap@, rows),
            values@.len() <= rows.len(),
            out@ == start + masked(values@.take(i as int), rows),
        decreases values@.len() - i,
    {
        proof {
            assert(values@.take(i + 1).drop_last() =~= values@.take(i as int));
            assert((bit(bitmap@, i as nat) == 1) == (i < rows.len() && rows[i as int]));
        }
        if get_bit(bitmap.as_slice(), i) {
            out.push(values[i]);
        }
        proof {
            assert(out@ =~= start + masked(values@.take(i + 1), rows));
        }
        i = i + 1;
    }
    proof {
        assert(values@.take(i as int) =~= values@);
    }
}

} // verus!
