//! Repetition and definition levels of data pages.
//!
//! The body of a first-version data page is the repetition levels, the
//! definition levels, then the values. A level stream is four bytes of
//! little-endian length and a hybrid stream of that many bytes, at the
//! narrowest width that holds the highest level. A stream whose highest
//! level is zero is left out.

use vstd::arithmetic::power2::{lemma2_to64, lemma_pow2_adds, lemma_pow2_strictly_increases, pow2};
use vstd::prelude::*;
use vstd::slice::slice_subrange;

use crate::bits::{field, read_field, BitPos};
use crate::error::{CodecError, Fault, Result};
use crate::rle::{decode_rle_bit_packed, step_values, walk};
use crate::schema::{FieldRepetitionType, SchemaElement};
use crate::text::{dec, text1, text2, text3};

verus! {

/// The narrowest width that carries every level up to `max_level`.
pub open spec fn is_width_for(width: u8, max_level: u16) -> bool {
    &&& max_level < pow2(width as nat)
    &&& width > 0 ==> pow2((width - 1) as nat) <= max_level
}

/// How many bits the levels `0..=max_level` take.
pub fn bit_width_for(max_level: u16) -> (width: u8)
    ensures
        is_width_for(width, max_level),
        width <= 16,
        (width == 0) == (max_level == 0),
{
    let mut width: u8 = 0;
    let mut rest: u16 = max_level;
    proof {
        lemma2_to64();
    }
    while rest > 0
        invariant
            width <= 16,
            rest * pow2(width as nat) <= max_level < (rest + 1) * pow2(width as nat),
            rest < pow2((16 - width) as nat),
            width == 0 ==> rest == max_level,
            width > 0 ==> pow2((width - 1) as nat) <= max_level,
        decreases rest,
    {
        proof {
            let p = pow2(width as nat) as int;
            let r = rest as int;
            let m = max_level as int;
            lemma_pow2_adds(1, width as nat);
            lemma2_to64();
            if width < 16 {
                lemma_pow2_adds(1, (15 - width) as nat);
            }
            assert((r / 2) * (2 * p) <= m && m < (r / 2 + 1) * (2 * p) && p <= m)
                by (nonlinear_arith)
                requires
                    r * p <= m,
                    m < (r + 1) * p,
                    r >= 1,
                    p >= 1,
            ;
        }
        rest = rest / 2;
        width = width + 1;
    }
    proof {
        assert((rest + 1) * pow2(width as nat) == pow2(width as nat)) by (nonlinear_arith)
            requires
                rest == 0,
        ;
    }
    width
}

/// The level stream at the start of a page body: its byte length with the
/// length prefix, or why there is none.
pub open spec fn level_section(body: Seq<u8>) -> std::result::Result<nat, Fault> {
    let len = field(body, 0, 32);
    if body.len() < 4 {
        Err(
            Fault::Decompress(
                "level stream: need 4-byte length prefix, have "@ + dec(body.len()) + ""@,
            ),
        )
    } else if body.len() < 4 + len {
        Err(
            Fault::Decompress(
                "level stream: prefix says "@ + dec(len) + " body bytes, have "@ + dec(
                    (body.len() - 4) as nat,
                ) + ""@,
            ),
        )
    } else {
        Ok(4 + len)
    }
}

/// The levels at the start of a page body and the bytes they take, or the
/// fault that stops the decoding. At width zero nothing is stored and every
/// level is zero.
pub open spec fn levels_at(body: Seq<u8>, width: u8, num_values: nat) -> std::result::Result<
    (Seq<u16>, nat),
    Fault,
> {
    if width == 0 {
        Ok((Seq::new(num_values, |i: int| 0u16), 0))
    } else {
        match level_section(body) {
            Err(f) => Err(f),
            Ok(end) => if width > 64 {
                Err(Fault::BitWidthOutOfRange(width))
            } else {
                let o = walk(
                    body.subrange(4, end as int),
                    0,
                    width as nat,
                    0,
                    num_values,
                    step_values(),
                );
                match o.fault {
                    Some(f) => Err(f),
                    None => Ok((o.emitted.map_values(|v: nat| (v % 0x1_0000) as u16), end)),
                }
            },
        }
    }
}

/// Decodes the level stream at the start of a page body. Returns the levels
/// and the bytes they took.
pub fn decode_levels(body: &[u8], bit_width: u8, num_values: usize) -> (r: Result<
    (Vec<u16>, usize),
>)
    ensures
        match levels_at(body@, bit_width, num_values as nat) {
            Ok((levels, end)) => r is Ok && r->Ok_0.0@ == levels && r->Ok_0.1 == end && end
                <= body@.len(),
            Err(f) => r is Err && r->Err_0@ == f,
        },
{
    let mut levels: Vec<u16> = Vec::new();
    if bit_width == 0 {
        levels.resize(num_values, 0);
        proof {
            assert(levels@ =~= Seq::new(num_values as nat, |i: int| 0u16));
        }
        return Ok((levels, 0));
    }
    if body.len() < 4 {
        return Err(
            CodecError::Decompress(
                text1("level stream: need 4-byte length prefix, have ", body.len() as u128, ""),
            ),
        );
    }
    let len: usize = read_field(body, &BitPos::start(), 32) as usize;
    if body.len() - 4 < len {
        return Err(
            CodecError::Decompress(
                text2(
                    "level stream: prefix says ",
                    len as u128,
                    " body bytes, have ",
                    (body.len() - 4) as u128,
                    "",
                ),
            ),
        );
    }
    let end: usize = 4 + len;
    let wide: Vec<u64> = match decode_rle_bit_packed(
        slice_subrange(body, 4, end),
        bit_width,
        num_values,
    ) {
        Ok(v) => v,
        Err(e) => {
            return Err(e);
        },
    };
    let ghost emitted = walk(
        body@.subrange(4, end as int),
        0,
        bit_width as nat,
        0,
        num_values as nat,
        step_values(),
    ).emitted;
    let mut k: usize = 0;
    while k < wide.len()
        invariant
            k <= wide@.len(),
            wide@ == emitted.map_values(|v: nat| v as u64),
            levels@ == wide@.take(k as int).map_values(|v: u64| (v as nat % 0x1_0000) as u16),
        decreases wide@.len() - k,
    {
        levels.push((wide[k] % 0x1_0000) as u16);
        proof {
            assert(levels@ =~= wide@.take(k + 1).map_values(
                |v: u64| (v as nat % 0x1_0000) as u16,
            ));
        }
        k = k + 1;
    }
    proof {
        crate::rle::lemma_walk_values_bound(
            body@.subrange(4, end as int),
            0,
            bit_width as nat,
            0,
            num_values as nat,
        );
        assert(wide@.take(k as int) =~= wide@);
        assert(levels@ =~= emitted.map_values(|v: nat| (v % 0x1_0000) as u16));
    }
    Ok((levels, end))
}

/// The two level streams at the front of a page body, and what follows
/// them.
pub open spec fn page_levels(
    body: Seq<u8>,
    rep_width: u8,
    def_width: u8,
    num_values: nat,
) -> std::result::Result<(Seq<u16>, Seq<u16>, Seq<u8>), Fault> {
    match levels_at(body, rep_width, num_values) {
        Err(f) => Err(f),
        Ok((rep, rep_end)) => match levels_at(
            body.skip(rep_end as int),
            def_width,
            num_values,
        ) {
            Err(f) => Err(f),
            Ok((def, def_end)) => Ok((rep, def, body.skip((rep_end + def_end) as int))),
        },
    }
}

/// Slices the repetition and definition levels off the front of a page
/// body and returns them with the bytes of the values section.
pub fn parse_v1_data_page_body(
    body: &[u8],
    max_rep_level: u16,
    max_def_level: u16,
    num_values: usize,
) -> (r: Result<(Vec<u16>, Vec<u16>, &[u8])>)
    ensures
        forall|rep_width: u8, def_width: u8|
            is_width_for(rep_width, max_rep_level) && is_width_for(def_width, max_def_level)
                ==> match #[trigger] page_levels(body@, rep_width, def_width, num_values as nat) {
                Ok((rep, def, rest)) => r is Ok && r->Ok_0.0@ == rep && r->Ok_0.1@ == def
                    && r->Ok_0.2@ == rest,
                Err(f) => r is Err && r->Err_0@ == f,
            },
{
    let rep_width: u8 = bit_width_for(max_rep_level);
    let def_width: u8 = bit_width_for(max_def_level);
    proof {
        lemma_width_unique(max_rep_level);
        lemma_width_unique(max_def_level);
    }
    let (rep, rep_end) = match decode_levels(body, rep_width, num_values) {
        Ok(v) => v,
        Err(e) => {
            return Err(e);
        },
    };
    let after_rep = slice_subrange(body, rep_end, body.len());
    let (def, def_end) = match decode_levels(after_rep, def_width, num_values) {
        Ok(v) => v,
        Err(e) => {
            return Err(e);
        },
    };
    let rest = slice_subrange(after_rep, def_end, after_rep.len());
    proof {
        assert(after_rep@ == body@.skip(rep_end as int));
        assert(rest@ =~= body@.skip((rep_end + def_end) as int));
    }
    Ok((rep, def, rest))
}

/// Only one width is the narrowest.
pub proof fn lemma_width_unique(max_level: u16)
    ensures
        forall|a: u8, b: u8| #[trigger]
            is_width_for(a, max_level) && #[trigger] is_width_for(b, max_level) ==> a == b,
{
    assert forall|a: u8, b: u8| #[trigger]
        is_width_for(a, max_level) && #[trigger] is_width_for(b, max_level) implies a == b by {
        if a < b && a < b - 1 {
            lemma_pow2_strictly_increases(a as nat, (b - 1) as nat);
        }
        if b < a && b < a - 1 {
            lemma_pow2_strictly_increases(b as nat, (a - 1) as nat);
        }
    }
}

/// Where a level stream that starts at `off` ends, at most; at width zero
/// there is none.
pub open spec fn skip_section(body: Seq<u8>, off: nat, width: u8) -> std::result::Result<
    nat,
    Fault,
> {
    let len = field(body.skip(off as int), 0, 32);
    if width == 0 {
        Ok(off)
    } else if body.len() < off + 4 {
        Err(
            Fault::Decompress(
                "level stream: need 4-byte length prefix at offset "@ + dec(off)
                    + ", body.len()="@ + dec(body.len()) + ""@,
            ),
        )
    } else if body.len() < off + 4 + len {
        Err(
            Fault::Decompress(
                "level stream: prefix says "@ + dec(len) + " body bytes at offset "@ + dec(off)
                    + ", body.len()="@ + dec(body.len()) + ""@,
            ),
        )
    } else {
        Ok(off + 4 + len)
    }
}

fn skip_one(body: &[u8], off: usize, width: u8) -> (r: Result<usize>)
    requires
        off <= body@.len(),
    ensures
        match skip_section(body@, off as nat, width) {
            Ok(end) => r is Ok && r->Ok_0 == end && end <= body@.len(),
            Err(f) => r is Err && r->Err_0@ == f,
        },
{
    if width == 0 {
        return Ok(off);
    }
    if body.len() - off < 4 {
        return Err(
            CodecError::Decompress(
                text2(
                    "level stream: need 4-byte length prefix at offset ",
                    off as u128,
                    ", body.len()=",
                    body.len() as u128,
                    "",
                ),
            ),
        );
    }
    let rest = slice_subrange(body, off, body.len());
    let len: usize = read_field(rest, &BitPos::start(), 32) as usize;
    if body.len() - off - 4 < len {
        return Err(
            CodecError::Decompress(
                text3(
                    "level stream: prefix says ",
                    len as u128,
                    " body bytes at offset ",
                    off as u128,
                    ", body.len()=",
                    body.len() as u128,
                    "",
                ),
            ),
        );
    }
    Ok(off + 4 + len)
}

/// Where the values section of a page body starts, without the levels being
/// decoded.
pub open spec fn values_offset(body: Seq<u8>, rep_width: u8, def_width: u8) -> std::result::Result<
    nat,
    Fault,
> {
    match skip_section(body, 0, rep_width) {
        Err(f) => Err(f),
        Ok(off) => skip_section(body, off, def_width),
    }
}

/// The offset at which the values section of a page body starts.
pub fn skip_v1_level_prefixes(body: &[u8], max_rep_level: u16, max_def_level: u16) -> (r: Result<
    usize,
>)
    ensures
        forall|rep_width: u8, def_width: u8|
            is_width_for(rep_width, max_rep_level) && is_width_for(def_width, max_def_level)
                ==> match #[trigger] values_offset(body@, rep_width, def_width) {
                Ok(off) => r is Ok && r->Ok_0 == off && off <= body@.len(),
                Err(f) => r is Err && r->Err_0@ == f,
            },
{
    let rep_width: u8 = bit_width_for(max_rep_level);
    let def_width: u8 = bit_width_for(max_def_level);
    proof {
        lemma_width_unique(max_rep_level);
        lemma_width_unique(max_def_level);
    }
    let off: usize = match skip_one(body, 0, rep_width) {
        Ok(v) => v,
        Err(e) => {
            return Err(e);
        },
    };
    skip_one(body, off, def_width)
}

/// Where decoding the levels of a page body succeeds, skipping them lands
/// on the same values section.
pub proof fn law_skip_agrees_with_parse(
    body: Seq<u8>,
    rep_width: u8,
    def_width: u8,
    num_values: nat,
)
    requires
        page_levels(body, rep_width, def_width, num_values) is Ok,
    ensures
        values_offset(body, rep_width, def_width) is Ok,
        page_levels(body, rep_width, def_width, num_values)->Ok_0.2 == body.skip(
            values_offset(body, rep_width, def_width)->Ok_0 as int,
        ),
{
    assert(body.skip(0) =~= body);
}

/// The levels that surround the children of a group, and how many children
/// are still to come.
pub struct GroupLevels {
    pub rep: nat,
    pub def: nat,
    pub left: int,
}

/// The levels of a node inside a group: an optional field adds a definition
/// level, a repeated one a level of each kind.
pub open spec fn node_levels(
    group: GroupLevels,
    repetition: Option<FieldRepetitionType>,
) -> (nat, nat) {
    match repetition {
        Some(FieldRepetitionType::Optional) => (group.rep, group.def + 1),
        Some(FieldRepetitionType::Repeated) => (group.rep + 1, group.def + 1),
        _ => (group.rep, group.def),
    }
}

/// One child of the innermost open group is complete.
pub open spec fn close_child(open: Seq<GroupLevels>) -> Seq<GroupLevels> {
    let top = open.last();
    open.update(open.len() - 1, GroupLevels { rep: top.rep, def: top.def, left: top.left - 1 })
}

/// Leaves the groups that have no child left; the root stays open.
pub open spec fn close_groups(open: Seq<GroupLevels>) -> Seq<GroupLevels>
    decreases open.len(),
{
    if open.len() > 1 && open.last().left <= 0 {
        close_groups(close_child(open.drop_last()))
    } else {
        open
    }
}

pub open spec fn child_count(node: SchemaElement) -> int {
    match node.num_children {
        Some(n) => n as int,
        None => 0,
    }
}

/// The levels of leaf number `target` among the nodes from `at` on, inside
/// the groups that are open; `leaves` have been passed.
pub open spec fn leaf_levels(
    schema: Seq<SchemaElement>,
    at: nat,
    open: Seq<GroupLevels>,
    leaves: nat,
    target: nat,
) -> std::result::Result<(nat, nat), Fault>
    decreases schema.len() - at,
{
    if at >= schema.len() {
        Err(
            Fault::InvalidInput(
                "leaf index "@ + dec(target) + " out of range (schema has "@ + dec(leaves)
                    + " leaves)"@,
            ),
        )
    } else {
        let node = schema[at as int];
        let (rep, def) = node_levels(open.last(), node.repetition_type);
        if rep > u16::MAX || def > u16::MAX {
            Err(Fault::InvalidInput("schema nesting exceeds the level range"@))
        } else if child_count(node) != 0 {
            leaf_levels(
                schema,
                at + 1,
                open.push(GroupLevels { rep, def, left: child_count(node) }),
                leaves,
                target,
            )
        } else if leaves == target {
            Ok((rep, def))
        } else {
            leaf_levels(schema, at + 1, close_groups(close_child(open)), leaves + 1, target)
        }
    }
}

/// The highest repetition and definition level of leaf number `target`.
pub open spec fn max_levels(schema: Seq<SchemaElement>, target: nat) -> std::result::Result<
    (nat, nat),
    Fault,
> {
    if schema.len() == 0 {
        Err(Fault::InvalidInput("empty schema"@))
    } else if child_count(schema[0]) <= 0 {
        Err(Fault::InvalidInput("schema root has no children"@))
    } else {
        leaf_levels(
            schema,
            1,
            seq![GroupLevels { rep: 0, def: 0, left: child_count(schema[0]) }],
            0,
            target,
        )
    }
}

/// An open group of the walk.
struct Frame {
    rep: u16,
    def: u16,
    left: i128,
}

spec fn frames(open: Seq<Frame>) -> Seq<GroupLevels> {
    open.map_values(|f: Frame| GroupLevels { rep: f.rep as nat, def: f.def as nat, left: f.left as int })
}

fn finish_child(open: &mut Vec<Frame>)
    requires
        old(open)@.len() > 0,
        old(open)@.last().left > i128::MIN,
    ensures
        frames(final(open)@) == close_child(frames(old(open)@)),
        final(open)@.len() == old(open)@.len(),
        forall|i: int|
            0 <= i < old(open)@.len() - 1 ==> #[trigger] final(open)@[i] == old(open)@[i],
        final(open)@.last().left == old(open)@.last().left - 1,
{
    let last: usize = open.len() - 1;
    let top = Frame { rep: open[last].rep, def: open[last].def, left: open[last].left - 1 };
    open.set(last, top);
    proof {
        assert(frames(open@) =~= close_child(frames(old(open)@)));
    }
}

/// The highest repetition and definition level of the leaf column
/// `leaf_index` of a schema.
pub fn compute_max_levels(schema: &[SchemaElement], leaf_index: usize) -> (r: Result<(u16, u16)>)
    ensures
        match max_levels(schema@, leaf_index as nat) {
            Ok((rep, def)) => r is Ok && r->Ok_0.0 == rep && r->Ok_0.1 == def,
            Err(f) => r is Err && r->Err_0@ == f,
        },
{
    if schema.len() == 0 {
        return Err(CodecError::InvalidInput("empty schema".to_string()));
    }
    let root_children: i32 = match schema[0].num_children {
        Some(n) => n,
        None => 0,
    };
    if root_children <= 0 {
        return Err(CodecError::InvalidInput("schema root has no children".to_string()));
    }
    let mut open: Vec<Frame> = Vec::new();
    open.push(Frame { rep: 0, def: 0, left: root_children as i128 });
    let mut leaves: usize = 0;
    let mut at: usize = 1;
    let ghost whole = max_levels(schema@, leaf_index as nat);
    proof {
        assert(frames(open@) =~= seq![
            GroupLevels { rep: 0, def: 0, left: root_children as int },
        ]);
    }
    while at < schema.len()
        invariant
            1 <= at <= schema@.len(),
            leaves < at,
            open@.len() > 0,
            forall|i: int|
                0 <= i < open@.len() ==> (#[trigger] open@[i]).left >= i32::MIN - 2 * at,
            whole == max_levels(schema@, leaf_index as nat),
            whole == leaf_levels(
                schema@,
                at as nat,
                frames(open@),
                leaves as nat,
                leaf_index as nat,
            ),
        decreases schema@.len() - at,
    {
        let top: usize = open.len() - 1;
        let mut rep: u16 = open[top].rep;
        let mut def: u16 = open[top].def;
        proof {
            assert(frames(open@).last() == GroupLevels {
                rep: rep as nat,
                def: def as nat,
                left: open@[top as int].left as int,
            });
        }
        let (more_rep, more_def): (u16, u16) = match schema[at].repetition_type {
            Some(FieldRepetitionType::Optional) => (0, 1),
            Some(FieldRepetitionType::Repeated) => (1, 1),
            _ => (0, 0),
        };
        if rep > u16::MAX - more_rep || def > u16::MAX - more_def {
            return Err(
                CodecError::InvalidInput("schema nesting exceeds the level range".to_string()),
            );
        }
        rep = rep + more_rep;
        def = def + more_def;
        let children: i32 = match schema[at].num_children {
            Some(n) => n,
            None => 0,
        };
        if children != 0 {
            let ghost before = open@;
            open.push(Frame { rep, def, left: children as i128 });
            proof {
                assert(frames(open@) =~= frames(before).push(
                    GroupLevels { rep: rep as nat, def: def as nat, left: children as int },
                ));
            }
        } else {
            if leaves == leaf_index {
                return Ok((rep, def));
            }
            leaves = leaves + 1;
            finish_child(&mut open);
            unwind(&mut open);
        }
        at = at + 1;
    }
    Err(
        CodecError::InvalidInput(
            text2(
                "leaf index ",
                leaf_index as u128,
                " out of range (schema has ",
                leaves as u128,
                " leaves)",
            ),
        ),
    )
}

/// Leaves the groups that have no child left.
fn unwind(open: &mut Vec<Frame>)
    requires
        old(open)@.len() > 0,
        forall|i: int|
            0 <= i < old(open)@.len() - 1 ==> (#[trigger] old(open)@[i]).left > i128::MIN,
    ensures
        frames(final(open)@) == close_groups(frames(old(open)@)),
        0 < final(open)@.len() <= old(open)@.len(),
        final(open)@.len() == old(open)@.len() ==> final(open)@ == old(open)@,
        forall|i: int|
            0 <= i < final(open)@.len() - 1 ==> #[trigger] final(open)@[i] == old(open)@[i],
        final(open)@.last().left >= old(open)@[final(open)@.len() - 1].left - 1,
    decreases old(open)@.len(),
{
    let n: usize = open.len();
    if n > 1 && open[n - 1].left <= 0 {
        let ghost before = open@;
        let _ = open.pop();
        proof {
            assert(frames(open@) =~= frames(before).drop_last());
            assert(forall|i: int| 0 <= i < open@.len() ==> #[trigger] open@[i] == before[i]);
        }
        finish_child(open);
        unwind(open);
    }
}

/// In a schema without nested groups the levels of a column depend on its
/// own repetition alone.
pub proof fn law_flat_schema_levels(schema: Seq<SchemaElement>, target: nat)
    requires
        target + 1 < schema.len(),
        child_count(schema[0]) > 0,
        forall|i: int| 1 <= i < schema.len() ==> child_count(#[trigger] schema[i]) == 0,
    ensures
        max_levels(schema, target) == Ok::<(nat, nat), Fault>(
            match schema[(target + 1) as int].repetition_type {
                Some(FieldRepetitionType::Optional) => (0nat, 1nat),
                Some(FieldRepetitionType::Repeated) => (1nat, 1nat),
                _ => (0nat, 0nat),
            },
        ),
{
    lemma_flat_walk(schema, 1, child_count(schema[0]), target);
}

proof fn lemma_flat_walk(schema: Seq<SchemaElement>, at: nat, left: int, target: nat)
    requires
        1 <= at <= target + 1 < schema.len(),
        forall|i: int| 1 <= i < schema.len() ==> child_count(#[trigger] schema[i]) == 0,
    ensures
        leaf_levels(
            schema,
            at,
            seq![GroupLevels { rep: 0, def: 0, left }],
            (at - 1) as nat,
            target,
        ) == Ok::<(nat, nat), Fault>(
            match schema[(target + 1) as int].repetition_type {
                Some(FieldRepetitionType::Optional) => (0nat, 1nat),
                Some(FieldRepetitionType::Repeated) => (1nat, 1nat),
                _ => (0nat, 0nat),
            },
        ),
    decreases target + 1 - at,
{
    let open = seq![GroupLevels { rep: 0, def: 0, left }];
    if at < target + 1 {
        lemma_flat_walk(schema, at + 1, left - 1, target);
        assert(close_child(open) =~= seq![GroupLevels { rep: 0, def: 0, left: left - 1 }]);
    }
}

proof fn lemma_close_keeps_order(open: Seq<GroupLevels>)
    requires
        open.len() > 0,
        forall|i: int| 0 <= i < open.len() ==> (#[trigger] open[i]).rep <= open[i].def,
    ensures
        close_groups(open).len() > 0,
        forall|i: int|
            0 <= i < close_groups(open).len() ==> (#[trigger] close_groups(open)[i]).rep
                <= close_groups(open)[i].def,
    decreases open.len(),
{
    if open.len() > 1 && open.last().left <= 0 {
        lemma_close_keeps_order(close_child(open.drop_last()));
    }
}

proof fn lemma_walk_keeps_order(
    schema: Seq<SchemaElement>,
    at: nat,
    open: Seq<GroupLevels>,
    leaves: nat,
    target: nat,
)
    requires
        open.len() > 0,
        forall|i: int| 0 <= i < open.len() ==> (#[trigger] open[i]).rep <= open[i].def,
    ensures
        leaf_levels(schema, at, open, leaves, target) matches Ok((rep, def)) ==> rep <= def
            <= u16::MAX,
    decreases schema.len() - at,
{
    if at < schema.len() {
        let node = schema[at as int];
        let (rep, def) = node_levels(open.last(), node.repetition_type);
        if child_count(node) != 0 {
            lemma_walk_keeps_order(
                schema,
                at + 1,
                open.push(GroupLevels { rep, def, left: child_count(node) }),
                leaves,
                target,
            );
        } else {
            lemma_close_keeps_order(close_child(open));
            lemma_walk_keeps_order(
                schema,
                at + 1,
                close_groups(close_child(open)),
                leaves + 1,
                target,
            );
        }
    }
}

/// A column never has more repetition levels than definition levels: every
/// repeated field adds one of each.
pub proof fn law_repetition_within_definition(schema: Seq<SchemaElement>, target: nat)
    ensures
        max_levels(schema, target) matches Ok((rep, def)) ==> rep <= def <= u16::MAX,
{
    if schema.len() > 0 {
        lemma_walk_keeps_order(
            schema,
            1,
            seq![GroupLevels { rep: 0, def: 0, left: child_count(schema[0]) }],
            0,
            target,
        );
    }
}

// ---- Schemas as trees ----

/// How often a field occurs in its parent, where that is said.
pub type Repetition = Option<FieldRepetitionType>;

/// A schema as a tree: columns, and groups of columns and groups.
pub enum SchemaTree {
    Column(Repetition),
    Group(Repetition, Seq<SchemaTree>),
}

impl SchemaTree {
    pub open spec fn repetition(self) -> Repetition {
        match self {
            SchemaTree::Column(r) => r,
            SchemaTree::Group(r, _) => r,
        }
    }

    pub open spec fn children(self) -> Seq<SchemaTree> {
        match self {
            SchemaTree::Column(_) => Seq::empty(),
            SchemaTree::Group(_, c) => c,
        }
    }

    /// The nodes, depth first, each with the number of its children.
    pub open spec fn nodes(self) -> Seq<(Repetition, nat)>
        decreases self, self.children().len() + 1,
    {
        match self {
            SchemaTree::Column(r) => seq![(r, 0nat)],
            SchemaTree::Group(r, c) => seq![(r, c.len())] + self.nodes_from(0),
        }
    }

    /// The nodes below the children from `j` on.
    pub open spec fn nodes_from(self, j: nat) -> Seq<(Repetition, nat)>
        decreases self, self.children().len() - j,
    {
        match self {
            SchemaTree::Column(_) => Seq::empty(),
            SchemaTree::Group(_, c) => if j >= c.len() {
                Seq::empty()
            } else {
                c[j as int].nodes() + self.nodes_from(j + 1)
            },
        }
    }

    /// The paths to the columns, in order: what the nodes from the top to the
    /// column say, after `above`.
    pub open spec fn paths(self, above: Seq<Repetition>) -> Seq<Seq<Repetition>>
        decreases self, self.children().len() + 1,
    {
        match self {
            SchemaTree::Column(r) => seq![above.push(r)],
            SchemaTree::Group(r, _) => self.paths_from(above.push(r), 0),
        }
    }

    /// The paths to the columns below the children from `j` on.
    pub open spec fn paths_from(self, above: Seq<Repetition>, j: nat) -> Seq<Seq<Repetition>>
        decreases self, self.children().len() - j,
    {
        match self {
            SchemaTree::Column(_) => Seq::empty(),
            SchemaTree::Group(_, c) => if j >= c.len() {
                Seq::empty()
            } else {
                c[j as int].paths(above) + self.paths_from(above, j + 1)
            },
        }
    }

    /// That no group is empty, and that no node below `above` has more levels
    /// than can be counted.
    pub open spec fn sound(self, above: Seq<Repetition>) -> bool
        decreases self, self.children().len() + 1,
    {
        &&& definition_levels(above.push(self.repetition())) <= u16::MAX
        &&& match self {
            SchemaTree::Column(_) => true,
            SchemaTree::Group(r, c) => c.len() > 0 && self.sound_from(above.push(r), 0),
        }
    }

    /// The same of the children from `j` on.
    pub open spec fn sound_from(self, above: Seq<Repetition>, j: nat) -> bool
        decreases self, self.children().len() - j,
    {
        match self {
            SchemaTree::Column(_) => true,
            SchemaTree::Group(_, c) => j < c.len() ==> c[j as int].sound(above)
                && self.sound_from(above, j + 1),
        }
    }
}

/// Whether a node adds a repetition level.
pub open spec fn repeats() -> spec_fn(Repetition) -> bool {
    |r: Repetition| r == Some(FieldRepetitionType::Repeated)
}

/// Whether a node adds a definition level.
pub open spec fn defines() -> spec_fn(Repetition) -> bool {
    |r: Repetition|
        r == Some(FieldRepetitionType::Repeated) || r == Some(FieldRepetitionType::Optional)
}

/// The repetition levels of a path: the repeated nodes on it.
pub open spec fn repetition_levels(path: Seq<Repetition>) -> nat {
    path.filter(repeats()).len()
}

/// The definition levels of a path: the optional and the repeated nodes on it.
pub open spec fn definition_levels(path: Seq<Repetition>) -> nat {
    path.filter(defines()).len()
}

/// That the nodes of a schema from `at` on are the given ones.
pub open spec fn lists(schema: Seq<SchemaElement>, at: nat, nodes: Seq<(Repetition, nat)>) -> bool {
    &&& at + nodes.len() <= schema.len()
    &&& forall|i: int|
        0 <= i < nodes.len() ==> schema[at + i].repetition_type == (#[trigger] nodes[i]).0
            && child_count(schema[at + i]) == nodes[i].1
}

/// One node more adds the levels of its own.
proof fn lemma_path_push(path: Seq<Repetition>, r: Repetition, left: int)
    ensures
        node_levels(
            GroupLevels { rep: repetition_levels(path), def: definition_levels(path), left },
            r,
        ) == (repetition_levels(path.push(r)), definition_levels(path.push(r))),
        repetition_levels(path) <= definition_levels(path),
    decreases path.len(),
{
    reveal(Seq::filter);
    assert(path.push(r).drop_last() =~= path);
    if path.len() > 0 {
        lemma_path_push(path.drop_last(), path.last(), left);
        assert(path.drop_last().push(path.last()) =~= path);
    }
}

/// A group of the walk whose children lie below a path.
pub open spec fn group_at(path: Seq<Repetition>, left: int) -> GroupLevels {
    GroupLevels { rep: repetition_levels(path), def: definition_levels(path), left }
}

proof fn lemma_lists_split(
    schema: Seq<SchemaElement>,
    at: nat,
    a: Seq<(Repetition, nat)>,
    b: Seq<(Repetition, nat)>,
)
    requires
        lists(schema, at, a + b),
    ensures
        lists(schema, at, a),
        lists(schema, at + a.len(), b),
{
    assert forall|i: int| 0 <= i < a.len() implies schema[at + i].repetition_type == (
    #[trigger] a[i]).0 && child_count(schema[at + i]) == a[i].1 by {
        assert((a + b)[i] == a[i]);
    }
    assert forall|i: int| 0 <= i < b.len() implies schema[at + a.len() + i].repetition_type == (
    #[trigger] b[i]).0 && child_count(schema[at + a.len() + i]) == b[i].1 by {
        assert((a + b)[a.len() + i] == b[i]);
    }
}

/// The walk over a subtree finds the column that is looked for, or comes out
/// after the subtree with one child of its group complete.
proof fn lemma_walk_tree(
    schema: Seq<SchemaElement>,
    at: nat,
    outer: Seq<GroupLevels>,
    above: Seq<Repetition>,
    left: int,
    tree: SchemaTree,
    leaves: nat,
    target: nat,
)
    requires
        lists(schema, at, tree.nodes()),
        tree.sound(above),
        leaves <= target,
    ensures
        ({
            let open = outer.push(group_at(above, left));
            let paths = tree.paths(above);
            leaf_levels(schema, at, open, leaves, target) == if target - leaves < paths.len() {
                Ok::<(nat, nat), Fault>(
                    (
                        repetition_levels(paths[target - leaves]),
                        definition_levels(paths[target - leaves]),
                    ),
                )
            } else {
                leaf_levels(
                    schema,
                    at + tree.nodes().len(),
                    close_groups(close_child(open)),
                    leaves + paths.len(),
                    target,
                )
            }
        }),
    decreases tree, tree.children().len() + 1,
{
    let open = outer.push(group_at(above, left));
    let node = schema[at as int];
    let r = tree.repetition();
    lemma_path_push(above, r, left);
    lemma_path_push(above.push(r), r, left);
    assert(open.last() == group_at(above, left));
    assert(tree.nodes()[0].0 == r && tree.nodes()[0].1 == tree.children().len());
    assert(schema[at + 0int].repetition_type == tree.nodes()[0].0);
    match tree {
        SchemaTree::Column(_) => {},
        SchemaTree::Group(_, c) => {
            lemma_lists_split(schema, at, seq![(r, c.len())], tree.nodes_from(0));
            assert(open.push(group_at(above.push(r), c.len() as int)) == open.push(
                GroupLevels {
                    rep: repetition_levels(above.push(r)),
                    def: definition_levels(above.push(r)),
                    left: child_count(node),
                },
            ));
            lemma_walk_children(schema, at + 1, open, above.push(r), tree, 0, leaves, target);
        },
    }
}

/// The same of the children of a group from one of them on.
proof fn lemma_walk_children(
    schema: Seq<SchemaElement>,
    at: nat,
    outer: Seq<GroupLevels>,
    above: Seq<Repetition>,
    tree: SchemaTree,
    j: nat,
    leaves: nat,
    target: nat,
)
    requires
        tree is Group,
        j < tree.children().len(),
        outer.len() > 0,
        lists(schema, at, tree.nodes_from(j)),
        tree.sound_from(above, j),
        leaves <= target,
    ensures
        ({
            let paths = tree.paths_from(above, j);
            leaf_levels(
                schema,
                at,
                outer.push(group_at(above, tree.children().len() - j)),
                leaves,
                target,
            ) == if target - leaves < paths.len() {
                Ok::<(nat, nat), Fault>(
                    (
                        repetition_levels(paths[target - leaves]),
                        definition_levels(paths[target - leaves]),
                    ),
                )
            } else {
                leaf_levels(
                    schema,
                    at + tree.nodes_from(j).len(),
                    close_groups(close_child(outer)),
                    leaves + paths.len(),
                    target,
                )
            }
        }),
    decreases tree, tree.children().len() - j,
{
    let c = tree.children();
    let child = c[j as int];
    let left = c.len() - j;
    let open = outer.push(group_at(above, left));
    let here = child.paths(above);
    let rest = tree.paths_from(above, j + 1);
    lemma_lists_split(schema, at, child.nodes(), tree.nodes_from(j + 1));
    lemma_walk_tree(schema, at, outer, above, left, child, leaves, target);
    assert(tree.paths_from(above, j) == here + rest);
    if target - leaves < here.len() {
        assert((here + rest)[target - leaves] == here[target - leaves]);
    } else {
        let closed = close_child(open);
        assert(closed =~= outer.push(group_at(above, left - 1)));
        let next = at + child.nodes().len();
        if j + 1 < c.len() {
            assert(close_groups(closed) == closed);
            lemma_walk_children(
                schema,
                next,
                outer,
                above,
                tree,
                j + 1,
                leaves + here.len(),
                target,
            );
            if target - leaves < (here + rest).len() {
                assert((here + rest)[target - leaves] == rest[target - leaves - here.len()]);
            }
            assert(tree.nodes_from(j).len() == child.nodes().len() + tree.nodes_from(
                j + 1,
            ).len());
        } else {
            assert(rest.len() == 0);
            assert(tree.nodes_from(j + 1).len() == 0);
            assert(closed.drop_last() =~= outer);
        }
    }
}

/// The levels of a column count the nodes on the path to it: its repetition
/// levels the repeated ones, its definition levels the optional and the
/// repeated ones. The root does not count. A column that is not there is
/// refused with the number of those that are.
pub proof fn law_levels_count_the_path(
    schema: Seq<SchemaElement>,
    root: SchemaTree,
    target: nat,
)
    requires
        root is Group,
        root.children().len() > 0,
        root.sound_from(Seq::empty(), 0),
        schema.len() == root.nodes().len(),
        lists(schema, 0, root.nodes()),
    ensures
        ({
            let paths = root.paths_from(Seq::empty(), 0);
            max_levels(schema, target) == if target < paths.len() {
                Ok::<(nat, nat), Fault>(
                    (
                        repetition_levels(paths[target as int]),
                        definition_levels(paths[target as int]),
                    ),
                )
            } else {
                Err(
                    Fault::InvalidInput(
                        "leaf index "@ + dec(target) + " out of range (schema has "@ + dec(
                            paths.len(),
                        ) + " leaves)"@,
                    ),
                )
            }
        }),
{
    let c = root.children();
    let none = Seq::<Repetition>::empty();
    let top = seq![(root.repetition(), c.len())];
    assert(root.nodes() == top + root.nodes_from(0));
    lemma_lists_split(schema, 0, top, root.nodes_from(0));
    assert(top[0].1 == c.len());
    assert(child_count(schema[0]) == top[0].1);
    reveal(Seq::filter);
    assert(Seq::<GroupLevels>::empty().push(group_at(none, c.len() as int)) =~= seq![
        GroupLevels { rep: 0, def: 0, left: child_count(schema[0]) },
    ]);
    lemma_walk_root(schema, 1, root, 0, 0, target);
}

/// The walk over the children of the root from one of them on.
proof fn lemma_walk_root(
    schema: Seq<SchemaElement>,
    at: nat,
    root: SchemaTree,
    j: nat,
    leaves: nat,
    target: nat,
)
    requires
        root is Group,
        j <= root.children().len(),
        at + root.nodes_from(j).len() == schema.len(),
        lists(schema, at, root.nodes_from(j)),
        root.sound_from(Seq::empty(), j),
        leaves <= target,
    ensures
        ({
            let paths = root.paths_from(Seq::empty(), j);
            leaf_levels(
                schema,
                at,
                Seq::<GroupLevels>::empty().push(
                    group_at(Seq::empty(), root.children().len() - j),
                ),
                leaves,
                target,
            ) == if target - leaves < paths.len() {
                Ok::<(nat, nat), Fault>(
                    (
                        repetition_levels(paths[target - leaves]),
                        definition_levels(paths[target - leaves]),
                    ),
                )
            } else {
                Err(
                    Fault::InvalidInput(
                        "leaf index "@ + dec(target) + " out of range (schema has "@ + dec(
                            (leaves + paths.len()) as nat,
                        ) + " leaves)"@,
                    ),
                )
            }
        }),
    decreases root.children().len() - j,
{
    let c = root.children();
    let none = Seq::<Repetition>::empty();
    let outer = Seq::<GroupLevels>::empty();
    let left = c.len() - j;
    let open = outer.push(group_at(none, left));
    if j < c.len() {
        let child = c[j as int];
        let here = child.paths(none);
        let rest = root.paths_from(none, j + 1);
        lemma_lists_split(schema, at, child.nodes(), root.nodes_from(j + 1));
        lemma_walk_tree(schema, at, outer, none, left, child, leaves, target);
        assert(root.paths_from(none, j) == here + rest);
        if target - leaves < here.len() {
            assert((here + rest)[target - leaves] == here[target - leaves]);
        } else {
            let closed = close_child(open);
            assert(closed =~= outer.push(group_at(none, left - 1)));
            assert(close_groups(closed) == closed);
            lemma_walk_root(
                schema,
                at + child.nodes().len(),
                root,
                j + 1,
                leaves + here.len(),
                target,
            );
            if target - leaves < (here + rest).len() {
                assert((here + rest)[target - leaves] == rest[target - leaves - here.len()]);
            }
        }
    }
}

} // verus!
