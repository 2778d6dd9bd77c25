//! The JSON that manifests are written in: strings, numbers, objects and
//! arrays, read strictly where a value is wanted and passed over where it is
//! not.
//!
//! Escapes are those of quotes, backslashes, slashes, newlines, carriage
//! returns and tabs. A comma between members or items may be left out.

use vstd::prelude::*;

use crate::text::{chars_of, dec, push_dec};

verus! {

pub open spec fn is_ws(c: char) -> bool {
    c == ' ' || c == '\t' || c == '\n' || c == '\r'
}

/// The first position from `pos` on that holds no white space.
pub open spec fn ws_end(s: Seq<char>, pos: nat) -> nat
    decreases s.len() - pos,
{
    if pos < s.len() && is_ws(s[pos as int]) {
        ws_end(s, pos + 1)
    } else {
        pos
    }
}

/// The bytes that a character takes in UTF-8.
pub open spec fn char_width(c: char) -> nat {
    if (c as u32) < 0x80 {
        1
    } else if (c as u32) < 0x800 {
        2
    } else if (c as u32) < 0x1_0000 {
        3
    } else {
        4
    }
}

/// The byte offset of a position.
pub open spec fn byte_pos(s: Seq<char>, pos: nat) -> nat
    decreases pos,
{
    if pos == 0 {
        0
    } else {
        byte_pos(s, (pos - 1) as nat) + char_width(s[pos - 1])
    }
}

/// The first byte of a character, as a character of its own.
pub open spec fn lead(c: char) -> char {
    let n = c as u32 as nat;
    (if n < 0x80 {
        n
    } else if n < 0x800 {
        0xc0 + n / 0x40
    } else if n < 0x1_0000 {
        0xe0 + n / 0x1000
    } else {
        0xf0 + n / 0x4_0000
    }) as u8 as char
}

/// Outcomes of a reader: a value and the position after it, or a message.
pub type Read<T> = Result<(T, nat), Seq<char>>;

/// The position after `c`, which must come next.
pub open spec fn expect_at(s: Seq<char>, pos: nat, c: char) -> Result<nat, Seq<char>> {
    let p = ws_end(s, pos);
    if p < s.len() && s[p as int] == c {
        Ok(p + 1)
    } else {
        Err("expected `"@ + seq![c] + "` at pos "@ + dec(byte_pos(s, p)))
    }
}

/// The position after `c`, where it comes next.
pub open spec fn close_at(s: Seq<char>, pos: nat, c: char) -> Option<nat> {
    let p = ws_end(s, pos);
    if p < s.len() && s[p as int] == c {
        Some(p + 1)
    } else {
        None
    }
}

/// The position after the comma, where one comes next.
pub open spec fn comma_at(s: Seq<char>, pos: nat) -> nat {
    let p = ws_end(s, pos);
    if p < s.len() && s[p as int] == ',' {
        p + 1
    } else {
        p
    }
}

/// What an escaped character stands for.
pub open spec fn unescaped(c: char) -> Option<char> {
    if c == '"' || c == '\\' || c == '/' {
        Some(c)
    } else if c == 'n' {
        Some('\n')
    } else if c == 'r' {
        Some('\r')
    } else if c == 't' {
        Some('\t')
    } else {
        None
    }
}

/// The rest of a string up to its closing quote.
pub open spec fn string_rest(s: Seq<char>, pos: nat) -> Read<Seq<char>>
    decreases s.len() - pos,
{
    if pos >= s.len() {
        Err("unterminated string"@)
    } else if s[pos as int] == '"' {
        Ok((Seq::empty(), pos + 1))
    } else if s[pos as int] != '\\' {
        prepend(s[pos as int], string_rest(s, pos + 1))
    } else if pos + 1 >= s.len() {
        Err("trailing backslash"@)
    } else {
        match unescaped(s[(pos + 1) as int]) {
            Some(c) => prepend(c, string_rest(s, pos + 2)),
            None => Err("unsupported escape `\\"@ + seq![lead(s[(pos + 1) as int])] + "`"@),
        }
    }
}

pub open spec fn prepend(c: char, rest: Read<Seq<char>>) -> Read<Seq<char>> {
    match rest {
        Ok((text, next)) => Ok((seq![c] + text, next)),
        Err(e) => Err(e),
    }
}

/// The string at `pos`.
pub open spec fn string_at(s: Seq<char>, pos: nat) -> Read<Seq<char>> {
    match expect_at(s, pos, '"') {
        Ok(p) => string_rest(s, p),
        Err(e) => Err(e),
    }
}

pub open spec fn is_digit(c: char) -> bool {
    '0' <= c <= '9'
}

pub open spec fn is_number_char(c: char) -> bool {
    is_digit(c) || c == '.' || c == 'e' || c == 'E' || c == '+' || c == '-'
}

/// The first position from `pos` on that no number goes on at.
pub open spec fn number_end(s: Seq<char>, pos: nat) -> nat
    decreases s.len() - pos,
{
    if pos < s.len() && is_number_char(s[pos as int]) {
        number_end(s, pos + 1)
    } else {
        pos
    }
}

/// The text of the number at `pos`.
pub open spec fn number_at(s: Seq<char>, pos: nat) -> Read<Seq<char>> {
    let p = ws_end(s, pos);
    let end = number_end(s, p);
    if end == p {
        Err("expected number at pos "@ + dec(byte_pos(s, p)))
    } else {
        Ok((s.subrange(p as int, end as int), end))
    }
}

/// The value of decimal digits; none where there is none, or another
/// character among them.
pub open spec fn digits_value(t: Seq<char>) -> Option<nat>
    decreases t.len(),
{
    if t.len() == 0 {
        None
    } else if !is_digit(t.last()) {
        None
    } else if t.len() == 1 {
        Some((t[0] as u32 - 48) as nat)
    } else {
        match digits_value(t.drop_last()) {
            Some(n) => Some((10 * n + (t.last() as u32 - 48)) as nat),
            None => None,
        }
    }
}

/// An unsigned number of 32 bits: digits, after a plus sign or none.
pub open spec fn u32_of(t: Seq<char>) -> Option<u32> {
    let digits = if t.len() > 0 && t[0] == '+' {
        t.skip(1)
    } else {
        t
    };
    match digits_value(digits) {
        Some(n) => if n <= u32::MAX {
            Some(n as u32)
        } else {
            None
        },
        None => None,
    }
}

/// A signed number of 64 bits: digits, after a sign or none.
pub open spec fn i64_of(t: Seq<char>) -> Option<i64> {
    let signed = t.len() > 0 && (t[0] == '+' || t[0] == '-');
    let digits = if signed {
        t.skip(1)
    } else {
        t
    };
    match digits_value(digits) {
        Some(n) => if t[0] == '-' {
            if n <= 0x8000_0000_0000_0000 {
                Some((-(n as int)) as i64)
            } else {
                None
            }
        } else if n <= i64::MAX {
            Some(n as i64)
        } else {
            None
        },
        None => None,
    }
}

/// The first position from `pos` on that holds no digit.
pub open spec fn digits_end(t: Seq<char>, pos: nat) -> nat
    decreases t.len() - pos,
{
    if pos < t.len() && is_digit(t[pos as int]) {
        digits_end(t, pos + 1)
    } else {
        pos
    }
}

/// That a text is a decimal fraction: an optional sign, digits with at most
/// one point among or beside them, and an optional exponent.
pub open spec fn is_fraction(t: Seq<char>) -> bool {
    let start: nat = if t.len() > 0 && (t[0] == '+' || t[0] == '-') {
        1
    } else {
        0
    };
    let whole = digits_end(t, start);
    let pointed = whole < t.len() && t[whole as int] == '.';
    let end = if pointed {
        digits_end(t, whole + 1)
    } else {
        whole
    };
    let digits = (end - start) - if pointed {
        1int
    } else {
        0int
    };
    &&& digits > 0
    &&& end == t.len() || is_exponent(t, end)
}

/// That an exponent lies from `pos` to the end.
pub open spec fn is_exponent(t: Seq<char>, pos: nat) -> bool {
    let start: nat = if pos + 1 < t.len() && (t[(pos + 1) as int] == '+' || t[(pos + 1) as int] == '-') {
        pos + 2
    } else {
        pos + 1
    };
    &&& pos < t.len()
    &&& t[pos as int] == 'e' || t[pos as int] == 'E'
    &&& start < t.len()
    &&& digits_end(t, start) == t.len()
}

pub open spec fn u32_at(s: Seq<char>, pos: nat) -> Read<u32> {
    match number_at(s, pos) {
        Ok((t, next)) => match u32_of(t) {
            Some(n) => Ok((n, next)),
            None => Err("bad u32 `"@ + t + "`"@),
        },
        Err(e) => Err(e),
    }
}

pub open spec fn i64_at(s: Seq<char>, pos: nat) -> Read<i64> {
    match number_at(s, pos) {
        Ok((t, next)) => match i64_of(t) {
            Some(n) => Ok((n, next)),
            None => Err("bad i64 `"@ + t + "`"@),
        },
        Err(e) => Err(e),
    }
}

/// The text of the decimal fraction at `pos`.
pub open spec fn fraction_at(s: Seq<char>, pos: nat) -> Read<Seq<char>> {
    match number_at(s, pos) {
        Ok((t, next)) => if is_fraction(t) {
            Ok((t, next))
        } else {
            Err("bad f64 `"@ + t + "`"@)
        },
        Err(e) => Err(e),
    }
}

pub proof fn lemma_ws_end(s: Seq<char>, pos: nat)
    ensures
        pos <= ws_end(s, pos),
        pos <= s.len() ==> ws_end(s, pos) <= s.len(),
        ws_end(s, pos) < s.len() ==> !is_ws(s[ws_end(s, pos) as int]),
    decreases s.len() - pos,
{
    if pos < s.len() && is_ws(s[pos as int]) {
        lemma_ws_end(s, pos + 1);
    }
}

pub proof fn lemma_ws_bounds(s: Seq<char>)
    ensures
        forall|q: nat| q <= #[trigger] ws_end(s, q),
{
    assert forall|q: nat| q <= #[trigger] ws_end(s, q) by {
        lemma_ws_end(s, q);
    }
}

pub proof fn lemma_string_rest(s: Seq<char>, pos: nat)
    ensures
        string_rest(s, pos) matches Ok((_, next)) ==> pos < next <= s.len(),
    decreases s.len() - pos,
{
    if pos < s.len() && s[pos as int] != '"' {
        if s[pos as int] != '\\' {
            lemma_string_rest(s, pos + 1);
        } else if pos + 1 < s.len() {
            lemma_string_rest(s, pos + 2);
        }
    }
}

pub proof fn lemma_string_at(s: Seq<char>, pos: nat)
    ensures
        string_at(s, pos) matches Ok((_, next)) ==> pos < next <= s.len(),
{
    lemma_ws_end(s, pos);
    lemma_string_rest(s, ws_end(s, pos) + 1);
}

pub proof fn lemma_number_end(s: Seq<char>, pos: nat)
    ensures
        pos <= number_end(s, pos),
        pos <= s.len() ==> number_end(s, pos) <= s.len(),
        forall|i: int| pos <= i < number_end(s, pos) ==> is_number_char(#[trigger] s[i]),
        number_end(s, pos) < s.len() ==> !is_number_char(s[number_end(s, pos) as int]),
    decreases s.len() - pos,
{
    if pos < s.len() && is_number_char(s[pos as int]) {
        lemma_number_end(s, pos + 1);
    }
}

pub proof fn lemma_number_at(s: Seq<char>, pos: nat)
    ensures
        number_at(s, pos) matches Ok((_, next)) ==> pos < next,
        number_at(s, pos) matches Ok((_, next)) ==> pos <= s.len() ==> next <= s.len(),
{
    lemma_ws_end(s, pos);
    lemma_number_end(s, ws_end(s, pos));
}

/// The characters from `pos` on.
pub open spec fn left(s: Seq<char>, pos: nat) -> nat {
    if pos < s.len() {
        (s.len() - pos) as nat
    } else {
        0
    }
}

pub open spec fn is_letter(c: char) -> bool {
    ('a' <= c <= 'z') || ('A' <= c <= 'Z')
}

pub open spec fn letters_end(s: Seq<char>, pos: nat) -> nat
    decreases s.len() - pos,
{
    if pos < s.len() && is_letter(s[pos as int]) {
        letters_end(s, pos + 1)
    } else {
        pos
    }
}

/// The characters after the first, which lies at `pos`, of a value of any
/// shape.
pub open spec fn value_tail(s: Seq<char>, pos: nat) -> Result<nat, Seq<char>>
    decreases left(s, pos), 0nat,
{
    if pos >= s.len() {
        Err("unexpected EOF"@)
    } else if s[pos as int] == '"' {
        match string_rest(s, pos + 1) {
            Ok((_, next)) => Ok((next - pos - 1) as nat),
            Err(e) => Err(e),
        }
    } else if s[pos as int] == '{' {
        members_len(s, pos + 1)
    } else if s[pos as int] == '[' {
        items_len(s, pos + 1)
    } else if s[pos as int] == 't' || s[pos as int] == 'f' || s[pos as int] == 'n' {
        Ok((letters_end(s, pos + 1) - pos - 1) as nat)
    } else if s[pos as int] == '-' || s[pos as int] == '+' || is_digit(s[pos as int]) {
        Ok((number_end(s, pos + 1) - pos - 1) as nat)
    } else {
        Err(
            "unexpected byte `"@ + seq![lead(s[pos as int])] + "` at pos "@ + dec(
                byte_pos(s, pos),
            ),
        )
    }
}

pub open spec fn plus(len: nat, more: Result<nat, Seq<char>>) -> Result<nat, Seq<char>> {
    match more {
        Ok(n) => Ok(len + n),
        Err(e) => Err(e),
    }
}

/// The characters from `pos` to the end of an object that is open there.
pub open spec fn members_len(s: Seq<char>, pos: nat) -> Result<nat, Seq<char>>
    decreases left(s, pos), 1nat,
    via members_decreases
{
    match close_at(s, pos, '}') {
        Some(end) => Ok((end - pos) as nat),
        None => match string_at(s, pos) {
            Err(e) => Err(e),
            Ok((_, p1)) => match expect_at(s, p1, ':') {
                Err(e) => Err(e),
                Ok(p2) => {
                    let p3 = ws_end(s, p2);
                    match value_tail(s, p3) {
                        Err(e) => Err(e),
                        Ok(n) => {
                            let next = comma_at(s, p3 + 1 + n);
                            plus((next - pos) as nat, members_len(s, next))
                        },
                    }
                },
            },
        },
    }
}

#[via_fn]
proof fn members_decreases(s: Seq<char>, pos: nat) {
    lemma_string_at(s, pos);
    lemma_ws_bounds(s);
}

/// The characters from `pos` to the end of an array that is open there.
pub open spec fn items_len(s: Seq<char>, pos: nat) -> Result<nat, Seq<char>>
    decreases left(s, pos), 1nat,
    via items_decreases
{
    match close_at(s, pos, ']') {
        Some(end) => Ok((end - pos) as nat),
        None => {
            let p = ws_end(s, pos);
            if p >= s.len() {
                Err("unexpected EOF"@)
            } else {
                match value_tail(s, p) {
                    Err(e) => Err(e),
                    Ok(n) => {
                        let next = comma_at(s, p + 1 + n);
                        plus((next - pos) as nat, items_len(s, next))
                    },
                }
            }
        },
    }
}

#[via_fn]
proof fn items_decreases(s: Seq<char>, pos: nat) {
    lemma_ws_bounds(s);
}

/// The position after a value of any shape.
pub open spec fn skip_at(s: Seq<char>, pos: nat) -> Result<nat, Seq<char>> {
    let p = ws_end(s, pos);
    match value_tail(s, p) {
        Ok(n) => Ok(p + 1 + n),
        Err(e) => Err(e),
    }
}

/// A read position in a text.
pub struct JsonParser {
    chars: Vec<char>,
    pos: usize,
    offset: u128,
}

impl JsonParser {
    pub closed spec fn text(&self) -> Seq<char> {
        self.chars@
    }

    pub closed spec fn at(&self) -> nat {
        self.pos as nat
    }

    pub closed spec fn wf(&self) -> bool {
        &&& self.pos <= self.chars@.len()
        &&& self.offset == byte_pos(self.chars@, self.pos as nat)
        &&& self.offset <= 4 * self.pos
    }

    pub fn new(s: &str) -> (p: Self)
        ensures
            p.wf(),
            p.text() == s@,
            p.at() == 0,
    {
        JsonParser { chars: chars_of(s), pos: 0, offset: 0 }
    }

    fn peek(&self) -> (c: Option<char>)
        requires
            self.wf(),
        ensures
            self.at() <= self.text().len(),
            match c {
                Some(c) => self.at() < self.text().len() && c == self.text()[self.at() as int],
                None => self.at() >= self.text().len(),
            },
    {
        if self.pos < self.chars.len() {
            Some(self.chars[self.pos])
        } else {
            None
        }
    }

    fn advance(&mut self)
        requires
            old(self).wf(),
            old(self).at() < old(self).text().len(),
        ensures
            final(self).wf(),
            final(self).text() == old(self).text(),
            final(self).at() == old(self).at() + 1,
    {
        let _len: usize = self.chars.len();
        let n: u32 = self.chars[self.pos] as u32;
        let width: u128 = if n < 0x80 {
            1
        } else if n < 0x800 {
            2
        } else if n < 0x1_0000 {
            3
        } else {
            4
        };
        self.offset = self.offset + width;
        self.pos = self.pos + 1;
    }

    fn skip_ws(&mut self)
        requires
            old(self).wf(),
        ensures
            final(self).wf(),
            final(self).text() == old(self).text(),
            final(self).at() == ws_end(old(self).text(), old(self).at()),
    {
        let ghost s = self.text();
        let ghost end = ws_end(s, self.at());
        loop
            invariant
                self.wf(),
                self.text() == s,
                end == ws_end(s, self.at()),
            ensures
                self.at() == end,
            decreases s.len() - self.at(),
        {
            match self.peek() {
                Some(c) => {
                    if c == ' ' || c == '\t' || c == '\n' || c == '\r' {
                        self.advance();
                    } else {
                        break ;
                    }
                },
                None => {
                    break ;
                },
            }
        }
    }

    /// Passes `c`, which must come next.
    pub fn expect(&mut self, c: char) -> (r: Result<(), String>)
        requires
            old(self).wf(),
        ensures
            final(self).wf(),
            final(self).text() == old(self).text(),
            match expect_at(old(self).text(), old(self).at(), c) {
                Ok(next) => r is Ok && final(self).at() == next,
                Err(e) => r is Err && r->Err_0@ == e,
            },
    {
        self.skip_ws();
        let found: bool = match self.peek() {
            Some(d) => d == c,
            None => false,
        };
        if found {
            self.advance();
            Ok(())
        } else {
            let mut e: String = "expected `".to_string();
            e.push(c);
            e.append("` at pos ");
            push_dec(&mut e, self.offset);
            proof {
                assert(e@ =~= "expected `"@ + seq![c] + "` at pos "@ + dec(
                    byte_pos(self.text(), self.at()),
                ));
            }
            Err(e)
        }
    }

    /// Passes `c` where it comes next, and says whether it did.
    pub fn try_close(&mut self, c: char) -> (closed: bool)
        requires
            old(self).wf(),
        ensures
            final(self).wf(),
            final(self).text() == old(self).text(),
            match close_at(old(self).text(), old(self).at(), c) {
                Some(next) => closed && final(self).at() == next,
                None => !closed && final(self).at() == ws_end(old(self).text(), old(self).at()),
            },
    {
        self.skip_ws();
        let found: bool = match self.peek() {
            Some(d) => d == c,
            None => false,
        };
        if found {
            self.advance();
        }
        found
    }

    /// Passes a comma where one comes next.
    pub fn consume_comma(&mut self)
        requires
            old(self).wf(),
        ensures
            final(self).wf(),
            final(self).text() == old(self).text(),
            final(self).at() == comma_at(old(self).text(), old(self).at()),
    {
        let _ = self.try_close(',');
    }

    fn string_rest(&mut self) -> (r: Result<String, String>)
        requires
            old(self).wf(),
        ensures
            final(self).wf(),
            final(self).text() == old(self).text(),
            match string_rest(old(self).text(), old(self).at()) {
                Ok((v, next)) => r is Ok && r->Ok_0@ == v && final(self).at() == next,
                Err(e) => r is Err && r->Err_0@ == e,
            },
    {
        let ghost s = self.text();
        let ghost start = self.at();
        let mut out: String = String::new();
        loop
            invariant
                self.wf(),
                self.text() == s,
                s == old(self).text(),
                start == old(self).at(),
                match string_rest(s, self.at()) {
                    Ok((v, next)) => string_rest(s, start) == Ok::<(Seq<char>, nat), Seq<char>>(
                        (out@ + v, next),
                    ),
                    Err(e) => string_rest(s, start) == Err::<(Seq<char>, nat), Seq<char>>(e),
                },
            decreases s.len() - self.at(),
        {
            let ghost before = out@;
            let ghost here = self.at();
            let c: char = match self.peek() {
                Some(c) => c,
                None => {
                    return Err("unterminated string".to_string());
                },
            };
            self.advance();
            if c == '"' {
                proof {
                    assert(out@ + Seq::<char>::empty() =~= out@);
                }
                return Ok(out);
            }
            let mut d: char = c;
            if c == '\\' {
                let escape: char = match self.peek() {
                    Some(x) => x,
                    None => {
                        return Err("trailing backslash".to_string());
                    },
                };
                self.advance();
                d = match escape {
                    '"' => '"',
                    '\\' => '\\',
                    '/' => '/',
                    'n' => '\n',
                    'r' => '\r',
                    't' => '\t',
                    _ => {
                        let mut e: String = "unsupported escape `\\".to_string();
                        e.push(lead_of(escape));
                        e.append("`");
                        proof {
                            assert(e@ =~= "unsupported escape `\\"@ + seq![lead(escape)] + "`"@);
                        }
                        return Err(e);
                    },
                };
            }
            out.push(d);
            proof {
                match string_rest(s, self.at()) {
                    Ok((v, next)) => {
                        assert(before + (seq![d] + v) =~= out@ + v);
                    },
                    Err(e) => {},
                }
            }
        }
    }

    /// Reads a string.
    pub fn string(&mut self) -> (r: Result<String, String>)
        requires
            old(self).wf(),
        ensures
            final(self).wf(),
            final(self).text() == old(self).text(),
            match string_at(old(self).text(), old(self).at()) {
                Ok((v, next)) => r is Ok && r->Ok_0@ == v && final(self).at() == next,
                Err(e) => r is Err && r->Err_0@ == e,
            },
    {
        match self.expect('"') {
            Ok(_) => self.string_rest(),
            Err(e) => Err(e),
        }
    }

    /// Reads the text of a number.
    pub fn number_str(&mut self) -> (r: Result<Vec<char>, String>)
        requires
            old(self).wf(),
        ensures
            final(self).wf(),
            final(self).text() == old(self).text(),
            match number_at(old(self).text(), old(self).at()) {
                Ok((v, next)) => r is Ok && r->Ok_0@ == v && final(self).at() == next,
                Err(e) => r is Err && r->Err_0@ == e,
            },
    {
        self.skip_ws();
        let ghost s = self.text();
        let ghost start = self.at();
        let ghost end = number_end(s, start);
        let offset: u128 = self.offset;
        let mut out: Vec<char> = Vec::new();
        proof {
            lemma_number_end(s, start);
        }
        loop
            invariant
                self.wf(),
                self.text() == s,
                start <= self.at(),
                self.at() <= s.len(),
                end == number_end(s, self.at()),
                out@ == s.subrange(start as int, self.at() as int),
            ensures
                self.at() == end,
            decreases s.len() - self.at(),
        {
            match self.peek() {
                Some(c) => {
                    if digit(c) || c == '.' || c == 'e' || c == 'E' || c == '+' || c == '-' {
                        let ghost here = self.at();
                        out.push(c);
                        self.advance();
                        proof {
                            assert(out@ =~= s.subrange(start as int, self.at() as int));
                        }
                    } else {
                        break ;
                    }
                },
                None => {
                    break ;
                },
            }
        }
        if out.len() == 0 {
            let mut e: String = "expected number at pos ".to_string();
            push_dec(&mut e, offset);
            return Err(e);
        }
        Ok(out)
    }

    /// Reads an unsigned number of 32 bits.
    pub fn u32(&mut self) -> (r: Result<u32, String>)
        requires
            old(self).wf(),
        ensures
            final(self).wf(),
            final(self).text() == old(self).text(),
            match u32_at(old(self).text(), old(self).at()) {
                Ok((v, next)) => r is Ok && r->Ok_0 == v && final(self).at() == next,
                Err(e) => r is Err && r->Err_0@ == e,
            },
    {
        let t: Vec<char> = match self.number_str() {
            Ok(t) => t,
            Err(e) => {
                return Err(e);
            },
        };
        match parse_u32(&t) {
            Some(n) => Ok(n),
            None => Err(bad_number("bad u32 `", &t)),
        }
    }

    /// Reads a signed number of 64 bits.
    pub fn i64(&mut self) -> (r: Result<i64, String>)
        requires
            old(self).wf(),
        ensures
            final(self).wf(),
            final(self).text() == old(self).text(),
            match i64_at(old(self).text(), old(self).at()) {
                Ok((v, next)) => r is Ok && r->Ok_0 == v && final(self).at() == next,
                Err(e) => r is Err && r->Err_0@ == e,
            },
    {
        let t: Vec<char> = match self.number_str() {
            Ok(t) => t,
            Err(e) => {
                return Err(e);
            },
        };
        match parse_i64(&t) {
            Some(n) => Ok(n),
            None => Err(bad_number("bad i64 `", &t)),
        }
    }

    /// Reads the text of a decimal fraction.
    pub fn fraction(&mut self) -> (r: Result<String, String>)
        requires
            old(self).wf(),
        ensures
            final(self).wf(),
            final(self).text() == old(self).text(),
            match fraction_at(old(self).text(), old(self).at()) {
                Ok((v, next)) => r is Ok && r->Ok_0@ == v && final(self).at() == next,
                Err(e) => r is Err && r->Err_0@ == e,
            },
    {
        let t: Vec<char> = match self.number_str() {
            Ok(t) => t,
            Err(e) => {
                return Err(e);
            },
        };
        if fraction_shaped(&t) {
            let mut s: String = String::new();
            push_chars(&mut s, &t);
            proof {
                assert(s@ =~= t@);
            }
            Ok(s)
        } else {
            Err(bad_number("bad f64 `", &t))
        }
    }

    /// Passes over a value of any shape.
    pub fn skip_value(&mut self) -> (r: Result<(), String>)
        requires
            old(self).wf(),
        ensures
            final(self).wf(),
            final(self).text() == old(self).text(),
            match skip_at(old(self).text(), old(self).at()) {
                Ok(next) => r is Ok && final(self).at() == next,
                Err(e) => r is Err && r->Err_0@ == e,
            },
    {
        self.skip_ws();
        self.skip_tail()
    }

    /// Passes over the value that starts at the position.
    fn skip_tail(&mut self) -> (r: Result<(), String>)
        requires
            old(self).wf(),
        ensures
            final(self).wf(),
            final(self).text() == old(self).text(),
            match value_tail(old(self).text(), old(self).at()) {
                Ok(n) => r is Ok && final(self).at() == old(self).at() + 1 + n,
                Err(e) => r is Err && r->Err_0@ == e,
            },
        decreases left(old(self).text(), old(self).at()), 0nat,
    {
        let ghost s = self.text();
        let ghost here = self.at();
        let c: char = match self.peek() {
            Some(c) => c,
            None => {
                return Err("unexpected EOF".to_string());
            },
        };
        if c == '"' {
            self.advance();
            proof {
                lemma_string_rest(s, here + 1);
            }
            return match self.string_rest() {
                Ok(_) => Ok(()),
                Err(e) => Err(e),
            };
        }
        if c == '{' {
            self.advance();
            return self.skip_members();
        }
        if c == '[' {
            self.advance();
            return self.skip_items();
        }
        if c == 't' || c == 'f' || c == 'n' {
            self.advance();
            let ghost end = letters_end(s, here + 1);
            loop
                invariant
                    self.wf(),
                    self.text() == s,
                    here + 1 <= self.at(),
                    end == letters_end(s, self.at()),
                ensures
                    self.at() == end,
                decreases s.len() - self.at(),
            {
                match self.peek() {
                    Some(d) => {
                        if ('a' <= d && d <= 'z') || ('A' <= d && d <= 'Z') {
                            self.advance();
                        } else {
                            break ;
                        }
                    },
                    None => {
                        break ;
                    },
                }
            }
            return Ok(());
        }
        if c == '-' || c == '+' || digit(c) {
            proof {
                assert(!is_ws(c));
                lemma_number_end(s, here + 1);
            }
            return match self.number_str() {
                Ok(_) => Ok(()),
                Err(e) => Err(e),
            };
        }
        let mut e: String = "unexpected byte `".to_string();
        e.push(lead_of(c));
        e.append("` at pos ");
        push_dec(&mut e, self.offset);
        proof {
            assert(e@ =~= "unexpected byte `"@ + seq![lead(c)] + "` at pos "@ + dec(
                byte_pos(s, here),
            ));
        }
        Err(e)
    }

    /// Passes over the rest of an object.
    fn skip_members(&mut self) -> (r: Result<(), String>)
        requires
            old(self).wf(),
        ensures
            final(self).wf(),
            final(self).text() == old(self).text(),
            match members_len(old(self).text(), old(self).at()) {
                Ok(n) => r is Ok && final(self).at() == old(self).at() + n,
                Err(e) => r is Err && r->Err_0@ == e,
            },
        decreases left(old(self).text(), old(self).at()), 1nat,
    {
        let ghost s = self.text();
        let ghost here = self.at();
        let ghost p1 = ws_end(s, here);
        proof {
            lemma_ws_bounds(s);
            lemma_string_at(s, here);
            lemma_ws_end(s, here);
            lemma_ws_idempotent(s, here);
        }
        if self.try_close('}') {
            return Ok(());
        }
        match self.string() {
            Ok(_) => {},
            Err(e) => {
                return Err(e);
            },
        }
        match self.expect(':') {
            Ok(_) => {},
            Err(e) => {
                return Err(e);
            },
        }
        self.skip_ws();
        match self.skip_tail() {
            Ok(_) => {},
            Err(e) => {
                return Err(e);
            },
        }
        self.consume_comma();
        self.skip_members()
    }

    /// Passes over the rest of an array.
    fn skip_items(&mut self) -> (r: Result<(), String>)
        requires
            old(self).wf(),
        ensures
            final(self).wf(),
            final(self).text() == old(self).text(),
            match items_len(old(self).text(), old(self).at()) {
                Ok(n) => r is Ok && final(self).at() == old(self).at() + n,
                Err(e) => r is Err && r->Err_0@ == e,
            },
        decreases left(old(self).text(), old(self).at()), 1nat,
    {
        let ghost s = self.text();
        let ghost here = self.at();
        proof {
            lemma_ws_bounds(s);
            lemma_ws_end(s, here);
        }
        if self.try_close(']') {
            return Ok(());
        }
        match self.skip_tail() {
            Ok(_) => {},
            Err(e) => {
                return Err(e);
            },
        }
        self.consume_comma();
        self.skip_items()
    }
}

proof fn lemma_ws_idempotent(s: Seq<char>, pos: nat)
    ensures
        ws_end(s, ws_end(s, pos)) == ws_end(s, pos),
{
    lemma_ws_end(s, pos);
}

fn digit(c: char) -> (b: bool)
    ensures
        b == is_digit(c),
{
    '0' <= c && c <= '9'
}

fn lead_of(c: char) -> (r: char)
    ensures
        r == lead(c),
{
    let n: u32 = c as u32;
    if n < 0x80 {
        n as u8 as char
    } else if n < 0x800 {
        (0xc0 + n / 0x40) as u8 as char
    } else if n < 0x1_0000 {
        (0xe0 + n / 0x1000) as u8 as char
    } else {
        (0xf0 + n / 0x4_0000) as u8 as char
    }
}

fn push_chars(s: &mut String, t: &Vec<char>)
    ensures
        final(s)@ == old(s)@ + t@,
{
    let ghost start = s@;
    let mut i: usize = 0;
    while i < t.len()
        invariant
            i <= t@.len(),
            s@ == start + t@.take(i as int),
        decreases t@.len() - i,
    {
        s.push(t[i]);
        proof {
            assert(s@ =~= start + t@.take(i + 1));
        }
        i = i + 1;
    }
    proof {
        assert(t@.take(i as int) =~= t@);
    }
}

fn bad_number(head: &str, t: &Vec<char>) -> (e: String)
    ensures
        e@ == head@ + t@ + "`"@,
{
    let mut e: String = head.to_string();
    push_chars(&mut e, t);
    e.append("`");
    e
}

/// The value of the digits from `start` on, where it is at most `limit`.
fn parse_digits(t: &Vec<char>, start: usize, limit: u64) -> (r: Option<u64>)
    requires
        start <= t@.len(),
        limit <= 0x8000_0000_0000_0000,
    ensures
        match digits_value(t@.skip(start as int)) {
            Some(n) => r == if n <= limit {
                Some(n as u64)
            } else {
                None
            },
            None => r is None,
        },
{
    let ghost digits = t@.skip(start as int);
    if start == t.len() {
        return None;
    }
    let mut value: u64 = 0;
    let mut i: usize = start;
    while i < t.len()
        invariant
            start <= i <= t@.len(),
            start < t@.len(),
            limit <= 0x8000_0000_0000_0000,
            digits == t@.skip(start as int),
            value <= limit,
            i > start ==> digits_value(digits.take(i - start)) == Some(value as nat),
            i == start ==> value == 0,
        decreases t@.len() - i,
    {
        let c: char = t[i];
        let ghost now = digits.take(i + 1 - start);
        proof {
            assert(now.drop_last() =~= digits.take(i - start));
            assert(now.last() == c);
        }
        if !digit(c) {
            proof {
                lemma_digits_prefix(digits, i + 1 - start);
            }
            return None;
        }
        let d: u64 = (c as u32 - 48) as u64;
        let next: u128 = 10 * value as u128 + d as u128;
        proof {
            assert(digits_value(now) == Some(next as nat));
        }
        if next > limit as u128 {
            proof {
                lemma_digits_grow(digits, i + 1 - start);
            }
            return None;
        }
        value = next as u64;
        i = i + 1;
    }
    proof {
        assert(digits.take(i - start) =~= digits);
    }
    Some(value)
}

/// A text whose beginning is no digits is no digits.
proof fn lemma_digits_prefix(t: Seq<char>, k: int)
    requires
        0 < k <= t.len(),
        digits_value(t.take(k)) is None,
    ensures
        digits_value(t) is None,
    decreases t.len(),
{
    if k == t.len() {
        assert(t.take(k) =~= t);
    } else {
        assert(t.drop_last().take(k) =~= t.take(k));
        lemma_digits_prefix(t.drop_last(), k);
    }
}

/// More digits give no smaller value.
proof fn lemma_digits_grow(t: Seq<char>, k: int)
    requires
        0 < k <= t.len(),
        digits_value(t.take(k)) is Some,
    ensures
        digits_value(t) matches Some(n) ==> n >= digits_value(t.take(k))->Some_0,
    decreases t.len(),
{
    if k == t.len() {
        assert(t.take(k) =~= t);
    } else {
        assert(t.drop_last().take(k) =~= t.take(k));
        lemma_digits_grow(t.drop_last(), k);
    }
}

fn parse_u32(t: &Vec<char>) -> (r: Option<u32>)
    ensures
        r == u32_of(t@),
{
    let start: usize = if t.len() > 0 && t[0] == '+' {
        1
    } else {
        0
    };
    proof {
        assert(t@.skip(0) =~= t@);
    }
    match parse_digits(t, start, 0xffff_ffff) {
        Some(n) => Some(n as u32),
        None => None,
    }
}

fn parse_i64(t: &Vec<char>) -> (r: Option<i64>)
    ensures
        r == i64_of(t@),
{
    proof {
        assert(t@.skip(0) =~= t@);
    }
    if t.len() > 0 && t[0] == '-' {
        return match parse_digits(t, 1, 0x8000_0000_0000_0000) {
            Some(n) => Some((-(n as i128)) as i64),
            None => None,
        };
    }
    let start: usize = if t.len() > 0 && t[0] == '+' {
        1
    } else {
        0
    };
    match parse_digits(t, start, 0x7fff_ffff_ffff_ffff) {
        Some(n) => Some(n as i64),
        None => None,
    }
}

fn skip_digits(t: &Vec<char>, start: usize) -> (end: usize)
    requires
        start <= t@.len(),
    ensures
        end == digits_end(t@, start as nat),
        start <= end <= t@.len(),
{
    let mut i: usize = start;
    while i < t.len() && digit(t[i])
        invariant
            start <= i <= t@.len(),
            digits_end(t@, start as nat) == digits_end(t@, i as nat),
        decreases t@.len() - i,
    {
        i = i + 1;
    }
    i
}

fn fraction_shaped(t: &Vec<char>) -> (b: bool)
    ensures
        b == is_fraction(t@),
{
    let n: usize = t.len();
    let start: usize = if n > 0 && (t[0] == '+' || t[0] == '-') {
        1
    } else {
        0
    };
    let whole: usize = skip_digits(t, start);
    let pointed: bool = whole < n && t[whole] == '.';
    let end: usize = if pointed {
        skip_digits(t, whole + 1)
    } else {
        whole
    };
    let digits: usize = if pointed {
        end - start - 1
    } else {
        end - start
    };
    if digits == 0 {
        return false;
    }
    if end == n {
        return true;
    }
    if t[end] != 'e' && t[end] != 'E' {
        return false;
    }
    let from: usize = if end + 1 < n && (t[end + 1] == '+' || t[end + 1] == '-') {
        end + 2
    } else {
        end + 1
    };
    from < n && skip_digits(t, from) == n
}

} // verus!
