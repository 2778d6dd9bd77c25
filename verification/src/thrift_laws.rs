//! What is read of structs as a writer lays them out: values that are passed
//! over, and the headers of filters.

use vstd::prelude::*;

use crate::bloom::{
    filter_in, header_bytes,
    fields_at, header_at, no_fields, union_at, BloomFilterAlgorithm, BloomFilterCompression,
    BloomFilterHash, HeaderFields,
};
use crate::cursor::{law_uvarint_round_trip, law_zigzag_round_trip, uvarint_bytes, zigzag};
use crate::error::{Fault, FormatError};
use crate::thrift::{
    field_head, item_len, items_len, pairs_len, struct_len, value_len, FieldHead, MAX_DEPTH,
};

verus! {

/// A value as a writer sees it.
pub enum Written {
    Truth(bool),
    Byte(u8),
    /// An integer of 16, 32 or 64 bits, by its type and its zigzag number.
    Number(u8, nat),
    /// The eight bytes of a floating-point number.
    Real(Seq<u8>),
    Binary(Seq<u8>),
    /// A list or a set, by its type, the type of its items, and the items.
    Items(u8, u8, Seq<Written>),
    /// A map, by the types of its keys and its values.
    Pairs(u8, u8, Seq<Written>, Seq<Written>),
    /// The ids of a struct's fields, and their values.
    Record(Seq<int>, Seq<Written>),
}

/// The header of a field after one with id `last`: the distance of the ids
/// and the type in one byte, or the type and the id.
pub open spec fn head_bytes(id: int, last: int, ty: u8) -> Seq<u8> {
    if 1 <= id - last <= 15 {
        seq![(16 * (id - last) + ty) as u8]
    } else {
        seq![ty] + uvarint_bytes(zigzag(id))
    }
}

impl Written {
    pub open spec fn ty(self) -> u8 {
        match self {
            Written::Truth(b) => if b {
                1
            } else {
                2
            },
            Written::Byte(_) => 3,
            Written::Number(t, _) => t,
            Written::Real(_) => 7,
            Written::Binary(_) => 8,
            Written::Items(t, _, _) => t,
            Written::Pairs(_, _, _, _) => 11,
            Written::Record(_, _) => 12,
        }
    }

    /// How many values it is made of.
    pub open spec fn parts(self) -> nat {
        match self {
            Written::Items(_, _, c) => c.len(),
            Written::Pairs(_, _, c, _) => c.len(),
            Written::Record(_, c) => c.len(),
            _ => 0,
        }
    }

    /// The bytes of the value of a field: a truth value takes none, its type
    /// tells it.
    pub open spec fn bytes(self) -> Seq<u8>
        decreases self, self.parts() + 1,
    {
        match self {
            Written::Truth(_) => Seq::empty(),
            Written::Byte(b) => seq![b],
            Written::Number(_, z) => uvarint_bytes(z),
            Written::Real(b) => b,
            Written::Binary(b) => uvarint_bytes(b.len()) + b,
            Written::Items(_, t, c) => if c.len() < 15 {
                seq![(16 * c.len() + t) as u8] + self.bytes_from(0, 0)
            } else {
                seq![(240 + t) as u8] + uvarint_bytes(c.len()) + self.bytes_from(0, 0)
            },
            Written::Pairs(k, v, c, _) => if c.len() == 0 {
                uvarint_bytes(0)
            } else {
                uvarint_bytes(c.len()) + seq![(16 * k + v) as u8] + self.bytes_from(0, 0)
            },
            Written::Record(_, _) => self.bytes_from(0, 0),
        }
    }

    /// The bytes of the value as one of a list, a set or a map: a truth value
    /// takes one.
    pub open spec fn item(self) -> Seq<u8>
        decreases self, self.parts() + 2,
    {
        match self {
            Written::Truth(_) => seq![self.ty()],
            _ => self.bytes(),
        }
    }

    /// The bytes of the parts from `j` on; of a struct's, after a field with
    /// id `last`, and with the zero that ends it.
    pub open spec fn bytes_from(self, j: nat, last: int) -> Seq<u8>
        decreases self, self.parts() - j,
    {
        match self {
            Written::Items(_, _, c) => if j >= c.len() {
                Seq::empty()
            } else {
                c[j as int].item() + self.bytes_from(j + 1, 0)
            },
            Written::Pairs(_, _, c, d) => if j >= c.len() || j >= d.len() {
                Seq::empty()
            } else {
                c[j as int].item() + d[j as int].item() + self.bytes_from(j + 1, 0)
            },
            Written::Record(ids, c) => if j >= c.len() {
                seq![0u8]
            } else {
                head_bytes(ids[j as int], last, c[j as int].ty()) + c[j as int].bytes()
                    + self.bytes_from(j + 1, ids[j as int])
            },
            _ => Seq::empty(),
        }
    }

    /// That the value can be written, nested no deeper than `depth`.
    pub open spec fn sound(self, depth: nat) -> bool
        decreases self, self.parts() + 1,
    {
        match self {
            Written::Truth(_) => true,
            Written::Byte(_) => true,
            Written::Number(t, z) => 4 <= t <= 6 && z <= u64::MAX,
            Written::Real(b) => b.len() == 8,
            Written::Binary(b) => b.len() <= u64::MAX,
            Written::Items(t, _, c) => depth > 0 && (t == 9 || t == 10) && c.len() <= u64::MAX
                && self.sound_from(0, (depth - 1) as nat) && self.item_type() < 16,
            Written::Pairs(k, v, c, d) => depth > 0 && c.len() == d.len() && c.len() <= u64::MAX
                && k < 16 && v < 16 && self.sound_from(0, (depth - 1) as nat),
            Written::Record(ids, c) => depth > 0 && ids.len() == c.len() && self.sound_from(
                0,
                (depth - 1) as nat,
            ),
        }
    }

    pub open spec fn item_type(self) -> u8 {
        match self {
            Written::Items(_, t, _) => t,
            _ => 0,
        }
    }

    /// The same of the parts from `j` on, and that they are of the types that
    /// are stated for all of them.
    pub open spec fn sound_from(self, j: nat, depth: nat) -> bool
        decreases self, self.parts() - j,
    {
        match self {
            Written::Items(_, t, c) => j < c.len() ==> c[j as int].sound(depth) && is_type(
                c[j as int],
                t,
            ) && self.sound_from(j + 1, depth),
            Written::Pairs(k, v, c, d) => j < c.len() && j < d.len() ==> c[j as int].sound(depth)
                && d[j as int].sound(depth) && is_type(c[j as int], k) && is_type(d[j as int], v)
                && self.sound_from(j + 1, depth),
            Written::Record(ids, c) => j < c.len() ==> c[j as int].sound(depth) && i32::MIN
                <= ids[j as int] <= i32::MAX && self.sound_from(j + 1, depth),
            _ => true,
        }
    }
}

/// That a value is of a type; both truth values are of either of theirs.
pub open spec fn is_type(v: Written, t: u8) -> bool {
    match v {
        Written::Truth(_) => t == 1 || t == 2,
        _ => v.ty() == t,
    }
}

proof fn lemma_type_is_small(v: Written, depth: nat)
    requires
        v.sound(depth),
    ensures
        1 <= v.ty() <= 12,
{
}

/// The header of a field is read as its type and its id.
proof fn lemma_head_reads_back(before: Seq<u8>, id: int, last: int, ty: u8, after: Seq<u8>)
    requires
        1 <= ty <= 15,
        i32::MIN <= id <= i32::MAX,
    ensures
        field_head(before + head_bytes(id, last, ty) + after, before.len(), last) == Ok::<
            FieldHead,
            FormatError,
        >(FieldHead::Value { ty, id, next: before.len() + head_bytes(id, last, ty).len() }),
{
    let bytes = before + head_bytes(id, last, ty) + after;
    if 1 <= id - last <= 15 {
        let b = (16 * (id - last) + ty) as u8;
        assert(bytes[before.len() as int] == b);
        assert(b / 16 == id - last && b % 16 == ty);
    } else {
        assert(bytes[before.len() as int] == ty);
        law_zigzag_round_trip(id);
        law_uvarint_round_trip(before.push(ty), zigzag(id), after);
        assert(before.push(ty) + uvarint_bytes(zigzag(id)) + after =~= bytes);
    }
}

/// A value that is passed over takes the bytes that were written of it,
/// whatever stands around them.
#[verifier::rlimit(100)]
#[verifier::spinoff_prover]
pub proof fn law_value_is_passed_over(
    before: Seq<u8>,
    v: Written,
    after: Seq<u8>,
    depth: nat,
)
    requires
        v.sound(depth),
    ensures
        value_len(before + v.bytes() + after, before.len(), v.ty(), depth) == Ok::<
            nat,
            FormatError,
        >(v.bytes().len()),
    decreases v, v.parts() + 1,
{
    let bytes = before + v.bytes() + after;
    let at = before.len() as int;
    match v {
        Written::Truth(_) => {},
        Written::Byte(_) => {},
        Written::Number(_, z) => {
            law_uvarint_round_trip(before, z, after);
        },
        Written::Real(_) => {},
        Written::Binary(b) => {
            law_uvarint_round_trip(before, b.len(), b + after);
            assert(before + uvarint_bytes(b.len()) + (b + after) =~= bytes);
        },
        Written::Items(_, t, c) => {
            let inner = v.bytes_from(0, 0);
            if c.len() < 15 {
                let head = (16 * c.len() + t) as u8;
                let front = before.push(head);
                assert(front + inner + after =~= bytes);
                assert(bytes[at] == head);
                assert(head / 16 == c.len() && head % 16 == t);
                lemma_items_are_passed_over(front, v, 0, after, (depth - 1) as nat);
            } else {
                let head = (240 + t) as u8;
                let size = uvarint_bytes(c.len());
                let front = before.push(head) + size;
                assert(front + inner + after =~= bytes);
                assert(bytes[at] == head);
                assert(head / 16 == 15 && head % 16 == t);
                law_uvarint_round_trip(before.push(head), c.len(), inner + after);
                assert(before.push(head) + size + (inner + after) =~= bytes);
                lemma_items_are_passed_over(front, v, 0, after, (depth - 1) as nat);
            }
        },
        Written::Pairs(k, w, c, _) => {
            let size = uvarint_bytes(c.len());
            if c.len() == 0 {
                law_uvarint_round_trip(before, 0, after);
            } else {
                let inner = v.bytes_from(0, 0);
                let types = (16 * k + w) as u8;
                let front = before + size;
                law_uvarint_round_trip(before, c.len(), seq![types] + inner + after);
                assert(before + size + (seq![types] + inner + after) =~= bytes);
                assert(bytes[front.len() as int] == types);
                assert(types / 16 == k && types % 16 == w);
                assert(front.push(types) + inner + after =~= bytes);
                lemma_pairs_are_passed_over(front.push(types), v, 0, after, (depth - 1) as nat);
            }
        },
        Written::Record(_, _) => {
            lemma_fields_are_passed_over(before, v, 0, 0, after, (depth - 1) as nat);
        },
    }
}

proof fn lemma_item_is_passed_over(
    before: Seq<u8>,
    v: Written,
    t: u8,
    after: Seq<u8>,
    depth: nat,
)
    requires
        v.sound(depth),
        is_type(v, t),
    ensures
        item_len(before + v.item() + after, before.len(), t, depth) == Ok::<nat, FormatError>(
            v.item().len(),
        ),
    decreases v, v.parts() + 2,
{
    match v {
        Written::Truth(_) => {},
        _ => {
            lemma_type_is_small(v, depth);
            law_value_is_passed_over(before, v, after, depth);
            if v is Number || v is Items {
                assert(v.ty() >= 4);
            }
        },
    }
}

#[verifier::rlimit(100)]
#[verifier::spinoff_prover]
proof fn lemma_items_are_passed_over(
    before: Seq<u8>,
    v: Written,
    j: nat,
    after: Seq<u8>,
    depth: nat,
)
    requires
        v is Items,
        j <= v.parts(),
        v.sound_from(j, depth),
    ensures
        items_len(
            before + v.bytes_from(j, 0) + after,
            before.len(),
            v.item_type(),
            (v.parts() - j) as nat,
            depth,
        ) == Ok::<nat, FormatError>(v.bytes_from(j, 0).len()),
    decreases v, v.parts() - j,
{
    let bytes = before + v.bytes_from(j, 0) + after;
    if let Written::Items(_, t, c) = v {
        if j < c.len() {
            let head = c[j as int].item();
            let rest = v.bytes_from(j + 1, 0);
            assert(before + head + (rest + after) =~= bytes);
            assert(before + head + rest + after =~= bytes);
            lemma_item_is_passed_over(before, c[j as int], t, rest + after, depth);
            lemma_items_are_passed_over(before + head, v, j + 1, after, depth);
        }
    }
}

#[verifier::rlimit(100)]
#[verifier::spinoff_prover]
proof fn lemma_pairs_are_passed_over(
    before: Seq<u8>,
    v: Written,
    j: nat,
    after: Seq<u8>,
    depth: nat,
)
    requires
        v is Pairs,
        v->Pairs_2.len() == v->Pairs_3.len(),
        j <= v.parts(),
        v.sound_from(j, depth),
    ensures
        pairs_len(
            before + v.bytes_from(j, 0) + after,
            before.len(),
            v->Pairs_0,
            v->Pairs_1,
            (v.parts() - j) as nat,
            depth,
        ) == Ok::<nat, FormatError>(v.bytes_from(j, 0).len()),
    decreases v, v.parts() - j,
{
    let bytes = before + v.bytes_from(j, 0) + after;
    if let Written::Pairs(k, w, c, d) = v {
        if j < c.len() {
            let key = c[j as int].item();
            let value = d[j as int].item();
            let rest = v.bytes_from(j + 1, 0);
            assert(before + key + (value + rest + after) =~= bytes);
            assert(before + key + value + (rest + after) =~= bytes);
            assert(before + key + value + rest + after =~= bytes);
            lemma_item_is_passed_over(before, c[j as int], k, value + rest + after, depth);
            lemma_item_is_passed_over(before + key, d[j as int], w, rest + after, depth);
            lemma_pairs_are_passed_over(before + key + value, v, j + 1, after, depth);
        }
    }
}

#[verifier::rlimit(100)]
#[verifier::spinoff_prover]
proof fn lemma_fields_are_passed_over(
    before: Seq<u8>,
    v: Written,
    j: nat,
    last: int,
    after: Seq<u8>,
    depth: nat,
)
    requires
        v is Record,
        v->Record_0.len() == v->Record_1.len(),
        j <= v.parts(),
        v.sound_from(j, depth),
    ensures
        struct_len(before + v.bytes_from(j, last) + after, before.len(), last, depth) == Ok::<
            nat,
            FormatError,
        >(v.bytes_from(j, last).len()),
    decreases v, v.parts() - j,
{
    let bytes = before + v.bytes_from(j, last) + after;
    if let Written::Record(ids, c) = v {
        if j < c.len() {
            let id = ids[j as int];
            let field = c[j as int];
            lemma_type_is_small(field, depth);
            let head = head_bytes(id, last, field.ty());
            let body = field.bytes();
            let rest = v.bytes_from(j + 1, id);
            assert(before + head + (body + rest + after) =~= bytes);
            assert(before + head + body + (rest + after) =~= bytes);
            assert(before + head + body + rest + after =~= bytes);
            lemma_head_reads_back(before, id, last, field.ty(), body + rest + after);
            law_value_is_passed_over(before + head, field, rest + after, depth);
            lemma_fields_are_passed_over(before + head + body, v, j + 1, id, after, depth);
        } else {
            assert(bytes[before.len() as int] == 0);
        }
    }
}

// ---- Headers of filters ----

/// A field of a filter's header.
pub enum HeaderField {
    /// The size of the bitset.
    Size(i32),
    /// One of the three unions, by its id: the id of the alternative that is
    /// set, and what it holds.
    Choice(int, int, Written),
    /// A field that headers do not have.
    Unknown(int, Written),
}

impl HeaderField {
    pub open spec fn id(self) -> int {
        match self {
            HeaderField::Size(_) => 1,
            HeaderField::Choice(id, _, _) => id,
            HeaderField::Unknown(id, _) => id,
        }
    }

    pub open spec fn ty(self) -> u8 {
        match self {
            HeaderField::Size(_) => 5,
            HeaderField::Choice(_, _, _) => 12,
            HeaderField::Unknown(_, v) => v.ty(),
        }
    }

    pub open spec fn bytes(self) -> Seq<u8> {
        match self {
            HeaderField::Size(n) => uvarint_bytes(zigzag(n as int)),
            HeaderField::Choice(_, alternative, v) => head_bytes(alternative, 0, v.ty()) + v.bytes()
                + seq![0u8],
            HeaderField::Unknown(_, v) => v.bytes(),
        }
    }

    pub open spec fn sound(self) -> bool {
        match self {
            HeaderField::Size(_) => true,
            HeaderField::Choice(id, alternative, v) => 2 <= id <= 4 && i32::MIN <= alternative
                <= i32::MAX && v.sound(MAX_DEPTH as nat),
            HeaderField::Unknown(id, v) => (id < 1 || id > 4) && i32::MIN <= id <= i32::MAX
                && v.sound(MAX_DEPTH as nat),
        }
    }
}

/// Fields in any order, and the zero after them.
pub open spec fn header_field_bytes(list: Seq<HeaderField>, last: int) -> Seq<u8>
    decreases list.len(),
{
    if list.len() == 0 {
        seq![0u8]
    } else {
        head_bytes(list[0].id(), last, list[0].ty()) + list[0].bytes() + header_field_bytes(
            list.skip(1),
            list[0].id(),
        )
    }
}

/// What a header holds once a field more has been read.
pub open spec fn with_field(fields: HeaderFields, f: HeaderField) -> HeaderFields {
    match f {
        HeaderField::Size(n) => HeaderFields { num_bytes: Some(n), ..fields },
        HeaderField::Choice(id, alternative, _) => if id == 2 {
            HeaderFields { algorithm: Some(alternative == 1), ..fields }
        } else if id == 3 {
            HeaderFields { hash: Some(alternative == 1), ..fields }
        } else {
            HeaderFields { compression: Some(alternative == 1), ..fields }
        },
        HeaderField::Unknown(_, _) => fields,
    }
}

pub open spec fn with_fields(fields: HeaderFields, list: Seq<HeaderField>) -> HeaderFields
    decreases list.len(),
{
    if list.len() == 0 {
        fields
    } else {
        with_fields(with_field(fields, list[0]), list.skip(1))
    }
}

#[verifier::rlimit(100)]
#[verifier::spinoff_prover]
proof fn lemma_choice_reads_back(before: Seq<u8>, alternative: int, v: Written, after: Seq<u8>)
    requires
        i32::MIN <= alternative <= i32::MAX,
        v.sound(MAX_DEPTH as nat),
    ensures
        ({
            let middle = head_bytes(alternative, 0, v.ty()) + v.bytes() + seq![0u8];
            union_at(before + middle + after, before.len(), 0, false) == Ok::<
                (bool, nat),
                FormatError,
            >((alternative == 1, middle.len()))
        }),
{
    let head = head_bytes(alternative, 0, v.ty());
    let body = v.bytes();
    let stop = seq![0u8];
    let bytes = before + (head + body + stop) + after;
    lemma_type_is_small(v, MAX_DEPTH as nat);
    assert(before + head + (body + stop + after) =~= bytes);
    lemma_head_reads_back(before, alternative, 0, v.ty(), body + stop + after);
    assert(before + head + body + (stop + after) =~= bytes);
    law_value_is_passed_over(before + head, v, stop + after, MAX_DEPTH as nat);
    let end = before.len() + head.len() + body.len();
    assert(bytes[end as int] == 0);
    assert(union_at(bytes, end, alternative, alternative == 1) == Ok::<(bool, nat), FormatError>(
        (alternative == 1, 1),
    ));
}

/// One field more is read, and the header goes on after it.
#[verifier::rlimit(100)]
#[verifier::spinoff_prover]
proof fn lemma_header_field_reads_back(
    before: Seq<u8>,
    f: HeaderField,
    last: int,
    fields: HeaderFields,
    after: Seq<u8>,
)
    requires
        f.sound(),
    ensures
        ({
            let head = head_bytes(f.id(), last, f.ty());
            let bytes = before + head + f.bytes() + after;
            fields_at(bytes, before.len(), last, fields) == fields_at(
                bytes,
                before.len() + head.len() + f.bytes().len(),
                f.id(),
                with_field(fields, f),
            )
        }),
{
    let head = head_bytes(f.id(), last, f.ty());
    let body = f.bytes();
    let bytes = before + head + body + after;
    if let HeaderField::Unknown(_, v) = f {
        lemma_type_is_small(v, MAX_DEPTH as nat);
    }
    assert(before + head + (body + after) =~= bytes);
    lemma_head_reads_back(before, f.id(), last, f.ty(), body + after);
    reveal_with_fuel(fields_at, 1);
    match f {
        HeaderField::Size(n) => {
            law_zigzag_round_trip(n as int);
            law_uvarint_round_trip(before + head, zigzag(n as int), after);
        },
        HeaderField::Choice(_, alternative, v) => {
            lemma_choice_reads_back(before + head, alternative, v, after);
        },
        HeaderField::Unknown(_, v) => {
            law_value_is_passed_over(before + head, v, after, MAX_DEPTH as nat);
        },
    }
}

#[verifier::rlimit(100)]
#[verifier::spinoff_prover]
proof fn lemma_header_fields_read_back(
    before: Seq<u8>,
    list: Seq<HeaderField>,
    last: int,
    fields: HeaderFields,
    after: Seq<u8>,
)
    requires
        forall|i: int| 0 <= i < list.len() ==> (#[trigger] list[i]).sound(),
    ensures
        fields_at(
            before + header_field_bytes(list, last) + after,
            before.len(),
            last,
            fields,
        ) == Ok::<(HeaderFields, nat), FormatError>(
            (with_fields(fields, list), before.len() + header_field_bytes(list, last).len()),
        ),
    decreases list.len(),
{
    let bytes = before + header_field_bytes(list, last) + after;
    if list.len() == 0 {
        assert(bytes[before.len() as int] == 0);
        reveal_with_fuel(fields_at, 1);
    } else {
        let f = list[0];
        let rest = list.skip(1);
        let head = head_bytes(f.id(), last, f.ty());
        let body = f.bytes();
        let tail = header_field_bytes(rest, f.id());
        assert(before + head + body + (tail + after) =~= bytes);
        assert(before + head + body + tail + after =~= bytes);
        lemma_header_field_reads_back(before, f, last, fields, tail + after);
        assert forall|i: int| 0 <= i < rest.len() implies (#[trigger] rest[i]).sound() by {
            assert(rest[i] == list[i + 1]);
        }
        lemma_header_fields_read_back(
            before + head + body,
            rest,
            f.id(),
            with_field(fields, f),
            after,
        );
    }
}

/// The header of a filter is read whatever the order of its fields, whatever
/// fields a header does not have stand among them, and whatever stands around
/// it: the size as it was written, and of each union whether its first
/// alternative was set.
#[verifier::rlimit(100)]
#[verifier::spinoff_prover]
pub proof fn law_filter_header_reads_back(
    before: Seq<u8>,
    list: Seq<HeaderField>,
    after: Seq<u8>,
)
    requires
        forall|i: int| 0 <= i < list.len() ==> (#[trigger] list[i]).sound(),
    ensures
        ({
            let f = with_fields(no_fields(), list);
            let bytes = before + header_field_bytes(list, 0) + after;
            match header_at(bytes, before.len()) {
                Ok((h, end)) => {
                    &&& end == before.len() + header_field_bytes(list, 0).len()
                    &&& f.num_bytes == Some(h.num_bytes)
                    &&& f.algorithm == Some(h.algorithm == BloomFilterAlgorithm::SplitBlock)
                    &&& f.hash == Some(h.hash == BloomFilterHash::XxHash)
                    &&& f.compression == Some(
                        h.compression == BloomFilterCompression::Uncompressed,
                    )
                },
                Err(_) => f.num_bytes is None || f.algorithm is None || f.hash is None
                    || f.compression is None,
            }
        }),
{
    lemma_header_fields_read_back(before, list, 0, no_fields(), after);
}

/// That a header says what this library reads: split blocks, hashed by XXH64,
/// not compressed.
pub open spec fn is_plain(f: HeaderFields) -> bool {
    f.algorithm == Some(true) && f.hash == Some(true) && f.compression == Some(true)
}

/// A filter of any writer is read with the bits that it has.
#[verifier::rlimit(100)]
#[verifier::spinoff_prover]
pub proof fn law_any_writers_filter_is_read(
    list: Seq<HeaderField>,
    bits: Seq<u8>,
    rest: Seq<u8>,
)
    requires
        forall|i: int| 0 <= i < list.len() ==> (#[trigger] list[i]).sound(),
        is_plain(with_fields(no_fields(), list)),
        with_fields(no_fields(), list).num_bytes matches Some(n) && n == bits.len(),
        bits.len() % 32 == 0,
    ensures
        filter_in(header_field_bytes(list, 0) + bits + rest) == Ok::<Seq<u8>, Fault>(bits),
{
    let none = Seq::<u8>::empty();
    let head = header_field_bytes(list, 0);
    let bytes = head + bits + rest;
    law_filter_header_reads_back(none, list, bits + rest);
    assert(none + head + (bits + rest) =~= bytes);
    assert(bytes.subrange(head.len() as int, (head.len() + bits.len()) as int) =~= bits);
}

/// A filter of another kind, of another hash, or compressed, is refused, and
/// so is one whose header leaves a field out.
#[verifier::rlimit(100)]
#[verifier::spinoff_prover]
pub proof fn law_other_filters_are_refused(list: Seq<HeaderField>, rest: Seq<u8>)
    requires
        forall|i: int| 0 <= i < list.len() ==> (#[trigger] list[i]).sound(),
        !is_plain(with_fields(no_fields(), list)) || with_fields(
            no_fields(),
            list,
        ).num_bytes is None,
    ensures
        filter_in(header_field_bytes(list, 0) + rest) is Err,
{
    let none = Seq::<u8>::empty();
    let head = header_field_bytes(list, 0);
    law_filter_header_reads_back(none, list, rest);
    assert(none + head + rest =~= head + rest);
}

/// A union of which the first alternative, an empty struct, is set.
pub open spec fn first_choice(id: int) -> HeaderField {
    HeaderField::Choice(id, 1, Written::Record(Seq::empty(), Seq::empty()))
}

/// The header that this library writes is the standard one: the size, then
/// the three unions in order of their ids.
#[verifier::rlimit(100)]
#[verifier::spinoff_prover]
pub proof fn law_stored_header_is_standard(n: i32)
    ensures
        header_bytes(n) == header_field_bytes(
            seq![HeaderField::Size(n), first_choice(2), first_choice(3), first_choice(4)],
            0,
        ),
{
    let l1 = seq![HeaderField::Size(n), first_choice(2), first_choice(3), first_choice(4)];
    let l2 = seq![first_choice(2), first_choice(3), first_choice(4)];
    let l3 = seq![first_choice(3), first_choice(4)];
    let l4 = seq![first_choice(4)];
    let l5 = Seq::<HeaderField>::empty();
    let empty = Written::Record(Seq::empty(), Seq::empty());
    assert(l1.skip(1) =~= l2 && l2.skip(1) =~= l3 && l3.skip(1) =~= l4 && l4.skip(1) =~= l5);
    assert(empty.bytes() =~= seq![0u8]);
    assert(head_bytes(1, 0, 12) =~= seq![0x1cu8]);
    let union = seq![0x1cu8, 0u8, 0u8];
    assert(first_choice(2).bytes() =~= union);
    assert(first_choice(3).bytes() =~= union);
    assert(first_choice(4).bytes() =~= union);
    assert(header_field_bytes(l5, 4) =~= seq![0u8]);
    assert(header_field_bytes(l4, 3) =~= seq![0x1cu8] + union + seq![0u8]);
    assert(header_field_bytes(l3, 2) =~= seq![0x1cu8] + union + header_field_bytes(l4, 3));
    assert(header_field_bytes(l2, 1) =~= seq![0x1cu8] + union + header_field_bytes(l3, 2));
    assert(head_bytes(1, 0, 5) =~= seq![0x15u8]);
    assert(header_bytes(n) =~= header_field_bytes(l1, 0));
}

} // verus!
