//! Processors grouped by memory node.

use vstd::prelude::*;

use crate::error::{reports, CodecError, Fault, Outcome, Result};
use crate::text::{chars_of, dec, text2};

verus! {

/// The processors of a host, by memory node.
#[derive(Debug, Clone)]
pub struct NumaTopology {
    /// `nodes[n]` are the processors of node `n`.
    pub nodes: Vec<Vec<u32>>,
}

// ---- Sorting ----

/// That numbers do not descend.
pub open spec fn ascends(s: Seq<u32>) -> bool {
    forall|i: int, j: int| 0 <= i < j < s.len() ==> s[i] <= s[j]
}

/// Merges two ascending lists.
fn merge(a: &Vec<u32>, b: &Vec<u32>) -> (out: Vec<u32>)
    requires
        ascends(a@),
        ascends(b@),
    ensures
        ascends(out@),
        out@.to_multiset() == a@.to_multiset().add(b@.to_multiset()),
{
    broadcast use vstd::seq_lib::group_to_multiset_ensures;

    let mut out: Vec<u32> = Vec::new();
    let mut i: usize = 0;
    let mut j: usize = 0;
    proof {
        assert(a@.take(0) =~= Seq::empty());
        assert(b@.take(0) =~= Seq::empty());
    }
    while i < a.len() || j < b.len()
        invariant
            i <= a@.len(),
            j <= b@.len(),
            ascends(a@),
            ascends(b@),
            ascends(out@),
            forall|k: int, x: int|
                0 <= k < out@.len() && i <= x < a@.len() ==> #[trigger] out@[k] <= #[trigger] a@[x],
            forall|k: int, y: int|
                0 <= k < out@.len() && j <= y < b@.len() ==> #[trigger] out@[k] <= #[trigger] b@[y],
            out@.to_multiset() == a@.take(i as int).to_multiset().add(
                b@.take(j as int).to_multiset(),
            ),
        decreases a@.len() - i + b@.len() - j,
    {
        let ghost before = out@;
        let from_a: bool = if i < a.len() && j < b.len() {
            a[i] <= b[j]
        } else {
            i < a.len()
        };
        if from_a {
            out.push(a[i]);
            proof {
                broadcast use vstd::seq_lib::group_to_multiset_ensures;

                assert(out@ =~= before.push(a@[i as int]));
                assert(a@.take(i + 1) =~= a@.take(i as int).push(a@[i as int]));
                assert(out@.to_multiset() =~= a@.take(i + 1).to_multiset().add(
                    b@.take(j as int).to_multiset(),
                ));
            }
            i = i + 1;
        } else {
            out.push(b[j]);
            proof {
                broadcast use vstd::seq_lib::group_to_multiset_ensures;

                assert(out@ =~= before.push(b@[j as int]));
                assert(b@.take(j + 1) =~= b@.take(j as int).push(b@[j as int]));
                assert(out@.to_multiset() =~= a@.take(i as int).to_multiset().add(
                    b@.take(j + 1).to_multiset(),
                ));
            }
            j = j + 1;
        }
    }
    proof {
        assert(a@.take(i as int) =~= a@);
        assert(b@.take(j as int) =~= b@);
    }
    out
}

/// Sorts the numbers at `[start, end)`.
fn sort_range(v: &Vec<u32>, start: usize, end: usize) -> (out: Vec<u32>)
    requires
        start <= end <= v@.len(),
    ensures
        ascends(out@),
        out@.to_multiset() == v@.subrange(start as int, end as int).to_multiset(),
    decreases end - start,
{
    broadcast use vstd::seq_lib::group_to_multiset_ensures;

    if end - start <= 1 {
        let mut out: Vec<u32> = Vec::new();
        if start < end {
            out.push(v[start]);
        }
        proof {
            assert(out@ =~= v@.subrange(start as int, end as int));
        }
        return out;
    }
    let mid: usize = start + (end - start) / 2;
    let a: Vec<u32> = sort_range(v, start, mid);
    let b: Vec<u32> = sort_range(v, mid, end);
    let out: Vec<u32> = merge(&a, &b);
    proof {
        let left = v@.subrange(start as int, mid as int);
        let right = v@.subrange(mid as int, end as int);
        assert(v@.subrange(start as int, end as int) =~= left + right);
        vstd::seq_lib::lemma_multiset_commutative(left, right);
    }
    out
}

/// Sorts numbers.
pub fn sorted_numbers(v: &Vec<u32>) -> (out: Vec<u32>)
    ensures
        ascends(out@),
        out@.to_multiset() == v@.to_multiset(),
{
    proof {
        assert(v@.subrange(0, v@.len() as int) =~= v@);
    }
    sort_range(v, 0, v.len())
}

// ---- Lists of processors ----

/// Whether a character is white space.
pub open spec fn is_white(c: char) -> bool {
    let u = c as u32;
    ||| 0x9 <= u <= 0xd
    ||| u == 0x20
    ||| u == 0x85
    ||| u == 0xa0
    ||| u == 0x1680
    ||| 0x2000 <= u <= 0x200a
    ||| u == 0x2028
    ||| u == 0x2029
    ||| u == 0x202f
    ||| u == 0x205f
    ||| u == 0x3000
}

fn white(c: char) -> (b: bool)
    ensures
        b == is_white(c),
{
    let u: u32 = c as u32;
    (0x9 <= u && u <= 0xd) || u == 0x20 || u == 0x85 || u == 0xa0 || u == 0x1680 || (0x2000 <= u
        && u <= 0x200a) || u == 0x2028 || u == 0x2029 || u == 0x202f || u == 0x205f || u == 0x3000
}

/// A text without the white space before it.
pub open spec fn trim_start(s: Seq<char>) -> Seq<char>
    decreases s.len(),
{
    if s.len() > 0 && is_white(s[0]) {
        trim_start(s.skip(1))
    } else {
        s
    }
}

/// A text without the white space after it.
pub open spec fn trim_end(s: Seq<char>) -> Seq<char>
    decreases s.len(),
{
    if s.len() > 0 && is_white(s.last()) {
        trim_end(s.drop_last())
    } else {
        s
    }
}

/// Whether a character is a decimal digit.
pub open spec fn is_digit(c: char) -> bool {
    0x30 <= c as u32 <= 0x39
}

/// The value of decimal digits.
pub open spec fn value_of(digits: Seq<char>) -> nat
    decreases digits.len(),
{
    if digits.len() == 0 {
        0
    } else {
        (10 * value_of(digits.drop_last()) + (digits.last() as u32 - 0x30)) as nat
    }
}

/// The digits of a numeral, which may start with a plus.
pub open spec fn digits_of(s: Seq<char>) -> Seq<char> {
    if s.len() > 1 && s[0] == '+' {
        s.skip(1)
    } else {
        s
    }
}

/// The number that a text is the decimal numeral of.
pub open spec fn number(s: Seq<char>) -> Option<u32> {
    let d = digits_of(s);
    if d.len() > 0 && (forall|i: int| 0 <= i < d.len() ==> is_digit(#[trigger] d[i])) && value_of(d)
        <= u32::MAX {
        Some(value_of(d) as u32)
    } else {
        None
    }
}

proof fn lemma_value_grows(d: Seq<char>, k: int)
    requires
        0 <= k <= d.len(),
        forall|i: int| 0 <= i < d.len() ==> is_digit(#[trigger] d[i]),
    ensures
        value_of(d.take(k)) <= value_of(d),
    decreases d.len() - k,
{
    if k < d.len() {
        lemma_value_grows(d, k + 1);
        assert(d.take(k + 1).drop_last() =~= d.take(k));
        assert(is_digit(d[k]));
    } else {
        assert(d.take(k) =~= d);
    }
}

/// The number that the characters `[start, end)` are the numeral of.
fn read_number(chars: &Vec<char>, start: usize, end: usize) -> (r: Option<u32>)
    requires
        start <= end <= chars@.len(),
    ensures
        r == number(chars@.subrange(start as int, end as int)),
{
    let ghost s = chars@.subrange(start as int, end as int);
    let ghost d = digits_of(s);
    let mut from: usize = start;
    if end - start > 1 && chars[start] == '+' {
        from = start + 1;
    }
    proof {
        assert(d =~= chars@.subrange(from as int, end as int));
    }
    if from == end {
        return None;
    }
    let mut i: usize = from;
    let mut v: u64 = 0;
    while i < end
        invariant
            start <= from <= i <= end <= chars@.len(),
            d == chars@.subrange(from as int, end as int),
            d == digits_of(chars@.subrange(start as int, end as int)),
            v == value_of(d.take(i - from)),
            v <= u32::MAX,
            forall|k: int| 0 <= k < i - from ==> is_digit(#[trigger] d[k]),
        decreases end - i,
    {
        let u: u32 = chars[i] as u32;
        proof {
            assert(d[i - from] == chars@[i as int]);
            assert(d.take(i - from + 1).drop_last() =~= d.take(i - from));
        }
        if u < 0x30 || u > 0x39 {
            proof {
                assert(!is_digit(d[i - from]));
            }
            return None;
        }
        v = 10 * v + (u - 0x30) as u64;
        if v > 0xffff_ffff {
            proof {
                if forall|k: int| 0 <= k < d.len() ==> is_digit(#[trigger] d[k]) {
                    lemma_value_grows(d, i - from + 1);
                }
            }
            return None;
        }
        i = i + 1;
    }
    proof {
        assert(d.take(i - from) =~= d);
    }
    Some(v as u32)
}

/// The number that the characters `[start, end)` are the numeral of, with
/// white space around it.
fn read_trimmed(chars: &Vec<char>, start: usize, end: usize) -> (r: Option<u32>)
    requires
        start <= end <= chars@.len(),
    ensures
        r == number(trim_end(trim_start(chars@.subrange(start as int, end as int)))),
{
    let ghost s = chars@.subrange(start as int, end as int);
    let mut a: usize = start;
    while a < end && white(chars[a])
        invariant
            start <= a <= end <= chars@.len(),
            trim_start(s) == trim_start(chars@.subrange(a as int, end as int)),
        decreases end - a,
    {
        proof {
            let t = chars@.subrange(a as int, end as int);
            assert(t[0] == chars@[a as int]);
            assert(t.skip(1) =~= chars@.subrange(a + 1, end as int));
        }
        a = a + 1;
    }
    let ghost t = chars@.subrange(a as int, end as int);
    proof {
        if a < end {
            assert(t[0] == chars@[a as int]);
        }
        assert(trim_start(s) == t);
    }
    let mut b: usize = end;
    while a < b && white(chars[b - 1])
        invariant
            start <= a <= b <= end <= chars@.len(),
            trim_end(t) == trim_end(chars@.subrange(a as int, b as int)),
        decreases b - a,
    {
        proof {
            let u = chars@.subrange(a as int, b as int);
            assert(u.last() == chars@[b - 1]);
            assert(u.drop_last() =~= chars@.subrange(a as int, b - 1));
        }
        b = b - 1;
    }
    proof {
        let u = chars@.subrange(a as int, b as int);
        if a < b {
            assert(u.last() == chars@[b - 1]);
        }
    }
    read_number(chars, a, b)
}

/// The first place of a character from `from` on, or the end.
pub open spec fn first_at(s: Seq<char>, c: char, from: nat) -> nat
    decreases s.len() - from,
{
    if from >= s.len() || s[from as int] == c {
        from
    } else {
        first_at(s, c, from + 1)
    }
}

proof fn lemma_first_at(s: Seq<char>, c: char, from: nat)
    requires
        from <= s.len(),
    ensures
        from <= first_at(s, c, from) <= s.len(),
    decreases s.len() - from,
{
    if from < s.len() && s[from as int] != c {
        lemma_first_at(s, c, from + 1);
    }
}

/// The first place of a character among `[start, end)`, or the end.
fn find_char(chars: &Vec<char>, c: char, start: usize, end: usize) -> (at: usize)
    requires
        start <= end <= chars@.len(),
    ensures
        start <= at <= end,
        at - start == first_at(chars@.subrange(start as int, end as int), c, 0),
{
    let ghost s = chars@.subrange(start as int, end as int);
    let mut at: usize = start;
    while at < end && chars[at] != c
        invariant
            start <= at <= end <= chars@.len(),
            s == chars@.subrange(start as int, end as int),
            first_at(s, c, 0) == first_at(s, c, (at - start) as nat),
        decreases end - at,
    {
        proof {
            assert(s[at - start] == chars@[at as int]);
        }
        at = at + 1;
    }
    proof {
        if at < end {
            assert(s[at - start] == chars@[at as int]);
        }
    }
    at
}

/// The numbers of one entry of a list: one, or a range with both its ends.
pub open spec fn entry_numbers(part: Seq<char>) -> std::result::Result<Seq<u32>, Fault> {
    let i = first_at(part, '-', 0);
    if i < part.len() {
        let lo = number(trim_end(trim_start(part.take(i as int))));
        let hi = number(trim_end(trim_start(part.skip((i + 1) as int))));
        if lo is Some && hi is Some {
            Ok(span(lo->Some_0, hi->Some_0))
        } else {
            Err(Fault::InvalidInput("bad cpulist range: "@ + part))
        }
    } else {
        match number(trim_end(trim_start(part))) {
            Some(c) => Ok(seq![c]),
            None => Err(Fault::InvalidInput("bad cpulist entry: "@ + part)),
        }
    }
}

/// The numbers from one to another.
pub open spec fn span(lo: u32, hi: u32) -> Seq<u32> {
    Seq::new(
        if lo <= hi {
            (hi - lo + 1) as nat
        } else {
            0
        },
        |k: int| (lo + k) as u32,
    )
}

#[via_fn]
proof fn listed_decreases(s: Seq<char>, from: nat) {
    if from <= s.len() {
        lemma_first_at(s, ',', from);
    }
}

/// The numbers of the entries from `from` on, up to the first that is none.
pub open spec fn listed(s: Seq<char>, from: nat) -> Outcome<u32>
    decreases s.len() - from,
    via listed_decreases
{
    let end = first_at(s, ',', from);
    match entry_numbers(s.subrange(from as int, end as int)) {
        Err(f) => Outcome { emitted: Seq::empty(), fault: Some(f) },
        Ok(numbers) => if from <= end < s.len() {
            listed(s, end + 1).after(numbers)
        } else {
            Outcome { emitted: numbers, fault: None }
        },
    }
}

/// The processors of a list such as `0-3,8`, as they are listed. An empty
/// text lists none.
pub open spec fn cpulist(s: Seq<char>) -> Outcome<u32> {
    if s.len() == 0 {
        Outcome { emitted: Seq::empty(), fault: None }
    } else {
        listed(s, 0)
    }
}

/// The characters `[start, end)` after a head.
fn text_of(head: &str, chars: &Vec<char>, start: usize, end: usize) -> (s: String)
    requires
        start <= end <= chars@.len(),
    ensures
        s@ == head@ + chars@.subrange(start as int, end as int),
{
    let mut s: String = head.to_string();
    let mut i: usize = start;
    proof {
        assert(s@ =~= head@ + chars@.subrange(start as int, start as int));
    }
    while i < end
        invariant
            start <= i <= end <= chars@.len(),
            s@ == head@ + chars@.subrange(start as int, i as int),
        decreases end - i,
    {
        s.push(chars[i]);
        proof {
            assert(s@ =~= head@ + chars@.subrange(start as int, i + 1));
        }
        i = i + 1;
    }
    s
}

/// The numbers of the entry `[start, end)`.
fn read_entry(chars: &Vec<char>, start: usize, end: usize) -> (r: Result<Vec<u32>>)
    requires
        start <= end <= chars@.len(),
    ensures
        match entry_numbers(chars@.subrange(start as int, end as int)) {
            Ok(numbers) => r is Ok && r->Ok_0@ == numbers,
            Err(f) => reports(r, Some(f)),
        },
{
    let ghost part = chars@.subrange(start as int, end as int);
    let dash: usize = find_char(chars, '-', start, end);
    let mut out: Vec<u32> = Vec::new();
    if dash < end {
        proof {
            let i = dash - start;
            assert(part.take(i) =~= chars@.subrange(start as int, dash as int));
            assert(part.skip(i + 1) =~= chars@.subrange(dash + 1, end as int));
        }
        let lo = read_trimmed(chars, start, dash);
        let hi = read_trimmed(chars, dash + 1, end);
        match (lo, hi) {
            (Some(lo), Some(hi)) => {
                let mut c: u64 = lo as u64;
                while c <= hi as u64
                    invariant
                        lo <= c,
                        c <= hi + 1 || c == lo,
                        out@ == Seq::new((c - lo) as nat, |k: int| (lo + k) as u32),
                    decreases hi + 1 - c,
                {
                    let ghost before = out@;
                    out.push(c as u32);
                    proof {
                        assert(out@ =~= Seq::new((c + 1 - lo) as nat, |k: int| (lo + k) as u32));
                    }
                    c = c + 1;
                }
                proof {
                    assert(out@ =~= span(lo, hi));
                }
                Ok(out)
            },
            _ => Err(CodecError::InvalidInput(text_of("bad cpulist range: ", chars, start, end))),
        }
    } else {
        match read_trimmed(chars, start, end) {
            Some(c) => {
                out.push(c);
                proof {
                    assert(out@ =~= seq![c]);
                }
                Ok(out)
            },
            None => Err(
                CodecError::InvalidInput(text_of("bad cpulist entry: ", chars, start, end)),
            ),
        }
    }
}

/// The processors of a list such as `0-3,8`, ascending.
pub fn parse_cpulist(s: &str) -> (r: Result<Vec<u32>>)
    ensures
        reports(r, cpulist(s@).fault),
        r is Ok ==> ascends(r->Ok_0@) && r->Ok_0@.to_multiset() == cpulist(
            s@,
        ).emitted.to_multiset(),
{
    let chars: Vec<char> = chars_of(s);
    let mut out: Vec<u32> = Vec::new();
    if chars.len() == 0 {
        proof {
            assert(out@ =~= Seq::empty());
        }
        return Ok(out);
    }
    let ghost whole = listed(s@, 0);
    let mut from: usize = 0;
    proof {
        assert(out@ + whole.emitted =~= whole.emitted);
    }
    loop
        invariant
            from <= chars@.len(),
            chars@ == s@,
            s@.len() > 0,
            whole == listed(s@, 0),
            whole == listed(s@, from as nat).after(out@),
        decreases chars@.len() - from,
    {
        let len: usize = chars.len();
        let end: usize = find_char(&chars, ',', from, len);
        proof {
            lemma_first_in_tail(s@, ',', from as nat, 0);
        }
        let mut numbers: Vec<u32> = match read_entry(&chars, from, end) {
            Ok(n) => n,
            Err(e) => {
                return Err(e);
            },
        };
        let ghost before = out@;
        let ghost more = numbers@;
        out.append(&mut numbers);
        if end == len {
            proof {
                assert(whole.emitted =~= out@);
            }
            return Ok(sorted_numbers(&out));
        }
        proof {
            let rest = listed(s@, (end + 1) as nat);
            assert(before + (more + rest.emitted) =~= out@ + rest.emitted);
        }
        from = end + 1;
    }
}

/// The first place in a text from `from` on, as one in what is left of it.
proof fn lemma_first_in_tail(s: Seq<char>, c: char, from: nat, k: nat)
    requires
        from + k <= s.len(),
    ensures
        first_at(s, c, from + k) == from + first_at(
            s.subrange(from as int, s.len() as int),
            c,
            k,
        ),
    decreases s.len() - from - k,
{
    let t = s.subrange(from as int, s.len() as int);
    if from + k < s.len() {
        assert(t[k as int] == s[(from + k) as int]);
        if s[(from + k) as int] != c {
            lemma_first_in_tail(s, c, from, k + 1);
        }
    }
}

// ---- Nodes ----

/// The number of the node that a directory of the system describes, by its
/// name: `node0`, `node1`, and so on.
pub open spec fn node_number(name: Seq<char>) -> Option<u32> {
    if name.len() >= 4 && name.take(4) == seq!['n', 'o', 'd', 'e'] {
        number(name.skip(4))
    } else {
        None
    }
}

/// The number of the node that a directory of the system describes.
pub fn node_id(name: &str) -> (r: Option<u32>)
    ensures
        r == node_number(name@),
{
    let chars: Vec<char> = chars_of(name);
    let len: usize = chars.len();
    if len >= 4 && chars[0] == 'n' && chars[1] == 'o' && chars[2] == 'd' && chars[3] == 'e' {
        proof {
            assert(name@.take(4) =~= seq!['n', 'o', 'd', 'e']);
            assert(name@.skip(4) =~= chars@.subrange(4, len as int));
        }
        return read_number(&chars, 4, len);
    }
    proof {
        if len >= 4 && name@.take(4) == seq!['n', 'o', 'd', 'e'] {
            let t = name@.take(4);
            assert(t[0] == 'n' && t[1] == 'o' && t[2] == 'd' && t[3] == 'e');
        }
    }
    None
}

/// That positions name every entry once, in order of the entries' numbers;
/// entries with one number keep their order.
pub open spec fn in_node_order(entries: Seq<(u32, Vec<u32>)>, order: Seq<usize>) -> bool {
    &&& order.len() == entries.len()
    &&& forall|i: int| 0 <= i < order.len() ==> #[trigger] order[i] < entries.len()
    &&& forall|i: int, j: int| #![trigger order[i], order[j]]
        0 <= i < j < order.len() ==> entries[order[i] as int].0 < entries[order[j] as int].0 || (
        entries[order[i] as int].0 == entries[order[j] as int].0 && order[i] < order[j])
}

/// The positions of entries, in order of their numbers.
fn node_order(entries: &Vec<(u32, Vec<u32>)>) -> (order: Vec<usize>)
    ensures
        in_node_order(entries@, order@),
{
    let mut order: Vec<usize> = Vec::new();
    let mut k: usize = 0;
    proof {
        assert(entries@.take(0).len() == 0);
    }
    while k < entries.len()
        invariant
            k <= entries@.len(),
            in_node_order(entries@.take(k as int), order@),
        decreases entries@.len() - k,
    {
        let ghost list = entries@.take(k as int);
        let id: u32 = entries[k].0;
        let mut at: usize = order.len();
        while at > 0 && entries[order[at - 1]].0 > id
            invariant
                k < entries@.len(),
                at <= order@.len(),
                id == entries@[k as int].0,
                list == entries@.take(k as int),
                in_node_order(list, order@),
                forall|i: int|
                    at <= i < order@.len() ==> list[(#[trigger] order@[i]) as int].0 > id,
                forall|i: int|
                    0 <= i < order@.len() ==> list[(#[trigger] order@[i]) as int]
                        == entries@[order@[i] as int],
            decreases at,
        {
            at = at - 1;
        }
        let ghost before = order@;
        order.insert(at, k);
        proof {
            let next = entries@.take(k + 1);
            assert(order@ =~= before.insert(at as int, k));
            assert forall|i: int| 0 <= i < order@.len() implies #[trigger] order@[i]
                < next.len() by {
                if i < at {
                    assert(order@[i] == before[i]);
                } else if i > at {
                    assert(order@[i] == before[i - 1]);
                }
            }
            assert forall|i: int, j: int| #![trigger order@[i], order@[j]]
                0 <= i < j < order@.len() implies next[order@[i] as int].0
                < next[order@[j] as int].0 || (next[order@[i] as int].0 == next[order@[j] as int].0
                && order@[i] < order@[j]) by {
                if i < at {
                    assert(order@[i] == before[i]);
                } else if i > at {
                    assert(order@[i] == before[i - 1]);
                }
                if j < at {
                    assert(order@[j] == before[j]);
                } else if j > at {
                    assert(order@[j] == before[j - 1]);
                }
                if i < at && j == at {
                    assert(before[at - 1] < k);
                    if i < at - 1 {
                        assert(list[before[i] as int].0 <= list[before[at - 1] as int].0);
                    }
                }
            }
        }
        k = k + 1;
    }
    proof {
        assert(entries@.take(k as int) =~= entries@);
    }
    order
}

impl NumaTopology {
    /// A processor of some node.
    pub open spec fn has_cpu(&self, cpu: u32) -> bool {
        exists|n: int| 0 <= n < self.nodes@.len() && (#[trigger] self.nodes@[n])@.contains(cpu)
    }

    /// The nodes of a host, in order of their numbers. Where none is known,
    /// all processors that are online form one node.
    pub fn from_nodes(entries: Vec<(u32, Vec<u32>)>, online: Vec<u32>) -> (t: Self)
        ensures
            entries@.len() == 0 ==> t.nodes@ == seq![online],
            entries@.len() > 0 ==> t.nodes@.len() == entries@.len() && exists|order: Seq<usize>|
                #[trigger] in_node_order(entries@, order) && forall|i: int|
                    0 <= i < order.len() ==> (#[trigger] t.nodes@[i])@
                        == entries@[order[i] as int].1@,
    {
        let mut nodes: Vec<Vec<u32>> = Vec::new();
        if entries.len() == 0 {
            nodes.push(online);
            proof {
                assert(nodes@ =~= seq![online]);
            }
            return NumaTopology { nodes };
        }
        let order: Vec<usize> = node_order(&entries);
        let mut i: usize = 0;
        while i < order.len()
            invariant
                i <= order@.len(),
                in_node_order(entries@, order@),
                nodes@.len() == i,
                forall|k: int|
                    0 <= k < i ==> (#[trigger] nodes@[k])@ == entries@[order@[k] as int].1@,
            decreases order@.len() - i,
        {
            nodes.push(vstd::slice::slice_to_vec(entries[order[i]].1.as_slice()));
            i = i + 1;
        }
        NumaTopology { nodes }
    }

    /// The number of nodes.
    pub fn num_nodes(&self) -> (n: usize)
        ensures
            n == self.nodes@.len(),
    {
        self.nodes.len()
    }

    /// Every processor of the host, ascending, each once.
    pub fn all_cpus(&self) -> (out: Vec<u32>)
        ensures
            forall|i: int, j: int| 0 <= i < j < out@.len() ==> out@[i] < out@[j],
            forall|c: u32| #[trigger] out@.contains(c) == self.has_cpu(c),
    {
        let mut all: Vec<u32> = Vec::new();
        let mut n: usize = 0;
        while n < self.nodes.len()
            invariant
                n <= self.nodes@.len(),
                forall|c: u32| #[trigger]
                    all@.contains(c) == exists|m: int|
                        0 <= m < n && (#[trigger] self.nodes@[m])@.contains(c),
            decreases self.nodes@.len() - n,
        {
            let ghost before = all@;
            let mut copy: Vec<u32> = vstd::slice::slice_to_vec(self.nodes[n].as_slice());
            let ghost node = copy@;
            all.append(&mut copy);
            proof {
                assert(all@ == before + node);
                assert forall|c: u32| #[trigger] all@.contains(c) == exists|m: int|
                    0 <= m < n + 1 && (#[trigger] self.nodes@[m])@.contains(c) by {
                    if all@.contains(c) {
                        let k = choose|k: int| 0 <= k < all@.len() && all@[k] == c;
                        if k < before.len() {
                            assert(before[k] == c);
                            assert(before.contains(c));
                        } else {
                            assert(node[k - before.len()] == c);
                            assert(self.nodes@[n as int]@.contains(c));
                        }
                    }
                    if exists|m: int| 0 <= m < n + 1 && (#[trigger] self.nodes@[m])@.contains(c) {
                        let m = choose|m: int|
                            0 <= m < n + 1 && (#[trigger] self.nodes@[m])@.contains(c);
                        if m < n {
                            assert(before.contains(c));
                            let k = choose|k: int| 0 <= k < before.len() && before[k] == c;
                            assert(all@[k] == c);
                        } else {
                            let k = choose|k: int| 0 <= k < node.len() && node[k] == c;
                            assert(all@[before.len() + k] == c);
                        }
                    }
                }
            }
            n = n + 1;
        }
        let sorted: Vec<u32> = sorted_numbers(&all);
        proof {
            broadcast use vstd::seq_lib::group_to_multiset_ensures;

            assert forall|c: u32| #[trigger] sorted@.contains(c) == all@.contains(c) by {
                assert(sorted@.contains(c) == (sorted@.to_multiset().count(c) > 0));
                assert(all@.contains(c) == (all@.to_multiset().count(c) > 0));
            }
        }
        distinct_of(&sorted)
    }
}

/// Ascending numbers, each once.
fn distinct_of(v: &Vec<u32>) -> (out: Vec<u32>)
    requires
        ascends(v@),
    ensures
        forall|i: int, j: int| 0 <= i < j < out@.len() ==> out@[i] < out@[j],
        forall|c: u32| #[trigger] out@.contains(c) == v@.contains(c),
{
    let mut out: Vec<u32> = Vec::new();
    let mut i: usize = 0;
    while i < v.len()
        invariant
            i <= v@.len(),
            ascends(v@),
            forall|a: int, b: int| 0 <= a < b < out@.len() ==> out@[a] < out@[b],
            forall|k: int| 0 <= k < out@.len() ==> v@.contains(#[trigger] out@[k]),
            forall|k: int| 0 <= k < i ==> out@.contains(#[trigger] v@[k]),
            out@.len() > 0 ==> i > 0 && out@.last() == v@[i - 1],
            out@.len() == 0 ==> i == 0,
        decreases v@.len() - i,
    {
        let ghost before = out@;
        let n: usize = out.len();
        if n == 0 || out[n - 1] != v[i] {
            out.push(v[i]);
            proof {
                if n > 0 {
                    assert(v@[i - 1] <= v@[i as int]);
                }
                assert forall|k: int| 0 <= k < i + 1 implies out@.contains(#[trigger] v@[k]) by {
                    if k < i {
                        assert(before.contains(v@[k]));
                        let q = choose|q: int| 0 <= q < before.len() && before[q] == v@[k];
                        assert(out@[q] == v@[k]);
                    } else {
                        assert(out@[n as int] == v@[k]);
                    }
                }
            }
        }
        i = i + 1;
    }
    proof {
        assert forall|c: u32| #[trigger] out@.contains(c) == v@.contains(c) by {
            if v@.contains(c) {
                let k = choose|k: int| 0 <= k < v@.len() && v@[k] == c;
                assert(out@.contains(v@[k]));
            }
        }
    }
    out
}

/// Pins the calling thread to the processors of a node. `set_affinity` asks
/// the system for it.
pub fn pin_current_thread_to_node<F: Fn(&Vec<u32>) -> Result<()>>(
    topology: &NumaTopology,
    node: usize,
    set_affinity: F,
) -> (r: Result<()>)
    requires
        forall|cpus: &Vec<u32>| #[trigger] call_requires(set_affinity, (cpus,)),
    ensures
        node >= topology.nodes@.len() ==> reports(
            r,
            Some(
                Fault::InvalidInput(
                    "numa node "@ + dec(node as nat) + " out of range (have "@ + dec(
                        topology.nodes@.len(),
                    ) + " nodes)"@,
                ),
            ),
        ),
        node < topology.nodes@.len() ==> call_ensures(
            set_affinity,
            (&topology.nodes@[node as int],),
            r,
        ),
{
    if node >= topology.nodes.len() {
        return Err(
            CodecError::InvalidInput(
                text2(
                    "numa node ",
                    node as u128,
                    " out of range (have ",
                    topology.nodes.len() as u128,
                    " nodes)",
                ),
            ),
        );
    }
    set_affinity(&topology.nodes[node])
}

/// The first processor from `from` on that an affinity set of the given size
/// has no place for.
pub open spec fn first_beyond(cpus: Seq<u32>, set_size: u32, from: nat) -> nat
    decreases cpus.len() - from,
{
    if from >= cpus.len() || cpus[from as int] >= set_size {
        from
    } else {
        first_beyond(cpus, set_size, from + 1)
    }
}

/// Checks that an affinity set has a place for every processor.
pub fn check_cpu_ids(cpus: &[u32], set_size: u32) -> (r: Result<()>)
    ensures
        ({
            let at = first_beyond(cpus@, set_size, 0);
            if at < cpus@.len() {
                reports(
                    r,
                    Some(
                        Fault::InvalidInput(
                            "cpu id "@ + dec(cpus@[at as int] as nat) + " ≥ CPU_SETSIZE ("@ + dec(
                                set_size as nat,
                            ) + ")"@,
                        ),
                    ),
                )
            } else {
                r is Ok
            }
        }),
{
    let mut i: usize = 0;
    while i < cpus.len()
        invariant
            i <= cpus@.len(),
            first_beyond(cpus@, set_size, 0) == first_beyond(cpus@, set_size, i as nat),
        decreases cpus@.len() - i,
    {
        if cpus[i] >= set_size {
            return Err(
                CodecError::InvalidInput(
                    text2(
                        "cpu id ",
                        cpus[i] as u128,
                        " ≥ CPU_SETSIZE (",
                        set_size as u128,
                        ")",
                    ),
                ),
            );
        }
        i = i + 1;
    }
    Ok(())
}

/// The workers of a pool: as many as asked for, or, where none are, one per
/// processor and at least one.
pub fn worker_count(num_threads: usize, topology: &NumaTopology) -> (n: usize)
    ensures
        num_threads > 0 ==> n == num_threads,
        num_threads == 0 ==> exists|all: Seq<u32>|
            {
                &&& forall|i: int, j: int| 0 <= i < j < all.len() ==> all[i] < all[j]
                &&& forall|c: u32| #[trigger] all.contains(c) == topology.has_cpu(c)
                &&& n == if #[trigger] all.len() == 0 {
                    1
                } else {
                    all.len()
                }
            },
{
    if num_threads > 0 {
        return num_threads;
    }
    let all: Vec<u32> = topology.all_cpus();
    if all.len() == 0 {
        proof {
            assert(all@.len() == 0);
        }
        1
    } else {
        all.len()
    }
}

/// The node that a worker is pinned to: the nodes take turns.
pub fn node_of_worker(worker: usize, topology: &NumaTopology) -> (node: usize)
    requires
        topology.nodes@.len() > 0,
    ensures
        node == worker % topology.nodes@.len() as usize,
        node < topology.nodes@.len(),
{
    worker % topology.nodes.len()
}

// ---- Lists as they are written ----

/// An entry of a list: one processor, or those from the first to the last of
/// a range. White space may stand around the numbers.
pub struct ListEntry {
    pub first: u32,
    pub last: Option<u32>,
    pub pads: (Seq<char>, Seq<char>, Seq<char>, Seq<char>),
}

/// Blanks, tabs and line ends.
pub open spec fn is_pad(s: Seq<char>) -> bool {
    forall|i: int| 0 <= i < s.len() ==> #[trigger] s[i] == ' ' || s[i] == '\t' || s[i] == '\n'
}

impl ListEntry {
    pub open spec fn text(self) -> Seq<char> {
        let one = self.pads.0 + dec(self.first as nat) + self.pads.1;
        match self.last {
            None => one,
            Some(last) => one + seq!['-'] + (self.pads.2 + dec(last as nat) + self.pads.3),
        }
    }

    /// The processors of the entry, one after the other.
    pub open spec fn cpus(self) -> Seq<u32> {
        match self.last {
            None => seq![self.first],
            Some(last) => Seq::new(
                if self.first <= last {
                    (last + 1 - self.first) as nat
                } else {
                    0
                },
                |k: int| (self.first + k) as u32,
            ),
        }
    }

    pub open spec fn padded(self) -> bool {
        is_pad(self.pads.0) && is_pad(self.pads.1) && is_pad(self.pads.2) && is_pad(self.pads.3)
    }
}

/// Entries with commas between them.
pub open spec fn list_text(entries: Seq<ListEntry>) -> Seq<char>
    decreases entries.len(),
{
    if entries.len() == 0 {
        Seq::empty()
    } else if entries.len() == 1 {
        entries[0].text()
    } else {
        entries[0].text() + seq![','] + list_text(entries.skip(1))
    }
}

/// The processors of entries, one after the other.
pub open spec fn list_cpus(entries: Seq<ListEntry>) -> Seq<u32>
    decreases entries.len(),
{
    if entries.len() == 0 {
        Seq::empty()
    } else {
        entries[0].cpus() + list_cpus(entries.skip(1))
    }
}

/// A number is the value of its decimal numeral.
pub proof fn law_numeral_has_its_value(n: nat)
    ensures
        dec(n).len() > 0,
        forall|i: int| 0 <= i < dec(n).len() ==> is_digit(#[trigger] dec(n)[i]),
        value_of(dec(n)) == n,
    decreases n,
{
    if n >= 10 {
        law_numeral_has_its_value(n / 10);
        assert(dec(n).drop_last() =~= dec(n / 10));
    } else {
        assert(dec(n).drop_last() =~= Seq::<char>::empty());
        assert(value_of(Seq::<char>::empty()) == 0);
    }
}

proof fn lemma_trim_start(p: Seq<char>, s: Seq<char>)
    requires
        is_pad(p),
        s.len() > 0,
        !is_white(s[0]),
    ensures
        trim_start(p + s) == s,
    decreases p.len(),
{
    if p.len() > 0 {
        assert(p[0] == ' ' || p[0] == '\t' || p[0] == '\n');
        assert forall|i: int| 0 <= i < p.skip(1).len() implies #[trigger] p.skip(1)[i] == ' '
            || p.skip(1)[i] == '\t' || p.skip(1)[i] == '\n' by {
            assert(p.skip(1)[i] == p[i + 1]);
        }
        lemma_trim_start(p.skip(1), s);
        assert((p + s).skip(1) =~= p.skip(1) + s);
    } else {
        assert(p + s =~= s);
    }
}

proof fn lemma_trim_end(s: Seq<char>, q: Seq<char>)
    requires
        is_pad(q),
        s.len() > 0,
        !is_white(s.last()),
    ensures
        trim_end(s + q) == s,
    decreases q.len(),
{
    if q.len() > 0 {
        let last = q.last();
        assert(last == ' ' || last == '\t' || last == '\n');
        assert forall|i: int| 0 <= i < q.drop_last().len() implies #[trigger] q.drop_last()[i]
            == ' ' || q.drop_last()[i] == '\t' || q.drop_last()[i] == '\n' by {
            assert(q.drop_last()[i] == q[i]);
        }
        lemma_trim_end(s, q.drop_last());
        assert((s + q).drop_last() =~= s + q.drop_last());
    } else {
        assert(s + q =~= s);
    }
}

/// A numeral, with white space around it or without, is read as its number.
proof fn lemma_number_reads_back(p: Seq<char>, n: u32, q: Seq<char>)
    requires
        is_pad(p),
        is_pad(q),
    ensures
        number(trim_end(trim_start(p + dec(n as nat) + q))) == Some(n),
        number(dec(n as nat)) == Some(n),
{
    let d = dec(n as nat);
    law_numeral_has_its_value(n as nat);
    assert(is_digit(d[0]));
    assert(is_digit(d.last()));
    assert(p + d + q =~= p + (d + q));
    assert((d + q)[0] == d[0]);
    lemma_trim_start(p, d + q);
    lemma_trim_end(d, q);
    assert(digits_of(d) == d);
}

proof fn lemma_first_absent(s: Seq<char>, c: char, from: nat)
    requires
        from <= s.len(),
        forall|i: int| from <= i < s.len() ==> #[trigger] s[i] != c,
    ensures
        first_at(s, c, from) == s.len(),
    decreases s.len() - from,
{
    if from < s.len() {
        lemma_first_absent(s, c, from + 1);
    }
}

proof fn lemma_first_present(s: Seq<char>, c: char, from: nat, at: nat)
    requires
        from <= at < s.len(),
        s[at as int] == c,
        forall|i: int| from <= i < at ==> #[trigger] s[i] != c,
    ensures
        first_at(s, c, from) == at,
    decreases at - from,
{
    if from < at {
        lemma_first_present(s, c, from + 1, at);
    }
}

/// Neither a dash nor a comma stands in a padded numeral.
proof fn lemma_padded_numeral(p: Seq<char>, n: u32, q: Seq<char>)
    requires
        is_pad(p),
        is_pad(q),
    ensures
        forall|i: int|
            0 <= i < (p + dec(n as nat) + q).len() ==> #[trigger] (p + dec(n as nat) + q)[i] != '-'
                && (p + dec(n as nat) + q)[i] != ',',
{
    let d = dec(n as nat);
    law_numeral_has_its_value(n as nat);
    assert forall|i: int| 0 <= i < (p + d + q).len() implies #[trigger] (p + d + q)[i] != '-' && (p
        + d + q)[i] != ',' by {
        if i < p.len() {
            assert((p + d + q)[i] == p[i]);
        } else if i < p.len() + d.len() {
            assert((p + d + q)[i] == d[i - p.len()]);
            assert(is_digit(d[i - p.len()]));
        } else {
            assert((p + d + q)[i] == q[i - p.len() - d.len()]);
        }
    }
}

#[verifier::rlimit(100)]
#[verifier::spinoff_prover]
proof fn lemma_entry_reads_back(e: ListEntry)
    requires
        e.padded(),
    ensures
        entry_numbers(e.text()) == Ok::<Seq<u32>, Fault>(e.cpus()),
        forall|i: int| 0 <= i < e.text().len() ==> #[trigger] e.text()[i] != ',',
{
    let (p0, p1, p2, p3) = e.pads;
    let one = p0 + dec(e.first as nat) + p1;
    lemma_padded_numeral(p0, e.first, p1);
    lemma_number_reads_back(p0, e.first, p1);
    match e.last {
        None => {
            lemma_first_absent(one, '-', 0);
        },
        Some(last) => {
            let two = p2 + dec(last as nat) + p3;
            lemma_padded_numeral(p2, last, p3);
            lemma_number_reads_back(p2, last, p3);
            lemma_range_reads_back(one, two, e.first, last);
            assert(span(e.first, last) =~= e.cpus());
        },
    }
}

proof fn lemma_range_reads_back(one: Seq<char>, two: Seq<char>, first: u32, last: u32)
    requires
        forall|i: int| 0 <= i < one.len() ==> #[trigger] one[i] != '-' && one[i] != ',',
        forall|i: int| 0 <= i < two.len() ==> #[trigger] two[i] != '-' && two[i] != ',',
        number(trim_end(trim_start(one))) == Some(first),
        number(trim_end(trim_start(two))) == Some(last),
    ensures
        entry_numbers(one + seq!['-'] + two) == Ok::<Seq<u32>, Fault>(span(first, last)),
        forall|i: int|
            0 <= i < (one + seq!['-'] + two).len() ==> #[trigger] (one + seq!['-'] + two)[i] != ',',
{
    let text = one + seq!['-'] + two;
    let at = one.len();
    assert(text[at as int] == '-');
    assert forall|i: int| 0 <= i < at implies #[trigger] text[i] != '-' by {
        assert(text[i] == one[i]);
    }
    lemma_first_present(text, '-', 0, at);
    assert(text.take(at as int) =~= one);
    assert(text.skip((at + 1) as int) =~= two);
    assert forall|i: int| 0 <= i < text.len() implies #[trigger] text[i] != ',' by {
        if i < at {
            assert(text[i] == one[i]);
        } else if i > at {
            assert(text[i] == two[i - at - 1]);
        }
    }
}

#[verifier::rlimit(100)]
#[verifier::spinoff_prover]
proof fn lemma_list_reads_back(before: Seq<char>, entries: Seq<ListEntry>)
    requires
        entries.len() > 0,
        forall|i: int| 0 <= i < entries.len() ==> (#[trigger] entries[i]).padded(),
    ensures
        listed(before + list_text(entries), before.len()) == (Outcome {
            emitted: list_cpus(entries),
            fault: None,
        }),
    decreases entries.len(),
{
    let s = before + list_text(entries);
    let e = entries[0];
    let head = e.text();
    let from = before.len();
    lemma_entry_reads_back(e);
    if entries.len() == 1 {
        assert forall|i: int| from <= i < s.len() implies #[trigger] s[i] != ',' by {
            assert(s[i] == head[i - from]);
        }
        lemma_first_absent(s, ',', from);
        assert(s.subrange(from as int, s.len() as int) =~= head);
        assert(list_cpus(entries.skip(1)) =~= Seq::empty());
        assert(list_cpus(entries) =~= e.cpus());
    } else {
        let rest = entries.skip(1);
        let at = from + head.len();
        let front = before + head + seq![','];
        assert(front + list_text(rest) =~= s);
        assert(s[at as int] == ',');
        assert forall|i: int| from <= i < at implies #[trigger] s[i] != ',' by {
            assert(s[i] == head[i - from]);
        }
        lemma_first_present(s, ',', from, at);
        assert(s.subrange(from as int, at as int) =~= head);
        assert forall|i: int| 0 <= i < rest.len() implies (#[trigger] rest[i]).padded() by {
            assert(rest[i] == entries[i + 1]);
        }
        lemma_list_reads_back(front, rest);
    }
}

/// A list of processors and of ranges, both ends of which count, is read as
/// all of them, whatever white space stands around its numbers.
pub proof fn law_cpulist_reads_back(entries: Seq<ListEntry>)
    requires
        forall|i: int| 0 <= i < entries.len() ==> (#[trigger] entries[i]).padded(),
    ensures
        cpulist(list_text(entries)) == (Outcome { emitted: list_cpus(entries), fault: None }),
{
    let none = Seq::<char>::empty();
    if entries.len() > 0 {
        lemma_list_reads_back(none, entries);
        assert(none + list_text(entries) =~= list_text(entries));
        law_numeral_has_its_value(entries[0].first as nat);
        assert(entries[0].text().len() > 0);
    } else {
        assert(list_cpus(entries) =~= Seq::empty());
    }
}

/// The directory of a node is called by the node's number.
pub proof fn law_node_names_read_back(n: u32)
    ensures
        node_number(seq!['n', 'o', 'd', 'e'] + dec(n as nat)) == Some(n),
{
    let name = seq!['n', 'o', 'd', 'e'] + dec(n as nat);
    let none = Seq::<char>::empty();
    lemma_number_reads_back(none, n, none);
    assert(name.take(4) =~= seq!['n', 'o', 'd', 'e']);
    assert(name.skip(4) =~= dec(n as nat));
}

/// The nodes of a host stand in order of their numbers, each once.
pub proof fn law_nodes_ascend(entries: Seq<(u32, Vec<u32>)>, order: Seq<usize>, i: int, j: int)
    requires
        in_node_order(entries, order),
        0 <= i < j < order.len(),
    ensures
        order.len() == entries.len(),
        order[i] != order[j],
        entries[order[i] as int].0 <= entries[order[j] as int].0,
{
}

} // verus!
