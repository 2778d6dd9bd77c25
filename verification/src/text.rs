//! Text building: decimal numerals and the message shapes the errors use.

use vstd::prelude::*;
use vstd::std_specs::iter::IteratorSpec;
use vstd::utf8::{decode_utf8, valid_utf8};

verus! {

/// `String::push`: the character is appended and nothing else changes.
pub assume_specification[ String::push ](s: &mut String, c: char)
    ensures
        final(s)@ == old(s)@.push(c),
;

/// `std::str::from_utf8`: gives a text exactly where the bytes are valid
/// UTF-8, and then the text that they encode.
#[verifier::external_body]
pub(crate) fn utf8_text(bytes: &[u8]) -> (r: Option<String>)
    ensures
        match r {
            Some(s) => valid_utf8(bytes@) && s@ == decode_utf8(bytes@),
            None => !valid_utf8(bytes@),
        },
{
    match std::str::from_utf8(bytes) {
        Ok(s) => Some(String::from(s)),
        Err(_) => None,
    }
}

/// The decimal digit of a number below ten.
pub open spec fn digit_char(d: nat) -> char {
    (48 + d) as u8 as char
}

/// The decimal numeral of `n`, without leading zeros.
pub open spec fn dec(n: nat) -> Seq<char>
    decreases n,
{
    if n < 10 {
        seq![digit_char(n)]
    } else {
        dec(n / 10).push(digit_char(n % 10))
    }
}

/// The decimal numeral of an integer, with a leading minus where negative.
pub open spec fn dec_int(n: int) -> Seq<char> {
    if n < 0 {
        seq!['-'] + dec((-n) as nat)
    } else {
        dec(n as nat)
    }
}

/// Appends the decimal numeral of `n`.
pub fn push_dec(s: &mut String, n: u128)
    ensures
        final(s)@ == old(s)@ + dec(n as nat),
    decreases n,
{
    if n < 10 {
        s.push((48u8 + n as u8) as char);
        assert(s@ =~= old(s)@ + dec(n as nat));
    } else {
        push_dec(s, n / 10);
        s.push((48u8 + (n % 10) as u8) as char);
        assert(s@ =~= old(s)@ + dec(n as nat));
    }
}

/// Appends the decimal numeral of a signed number.
pub fn push_dec_i64(s: &mut String, n: i64)
    ensures
        final(s)@ == old(s)@ + dec_int(n as int),
{
    if n < 0 {
        s.push('-');
        push_dec(s, (-(n as i128)) as u128);
        assert(s@ =~= old(s)@ + dec_int(n as int));
    } else {
        push_dec(s, n as u128);
    }
}

/// `head` followed by a numeral and `tail`.
pub fn text1(head: &str, n: u128, tail: &str) -> (s: String)
    ensures
        s@ == head@ + dec(n as nat) + tail@,
{
    let mut s: String = head.to_string();
    push_dec(&mut s, n);
    s.append(tail);
    s
}

/// Three pieces of text with two numerals between them.
pub fn text2(head: &str, n: u128, mid: &str, m: u128, tail: &str) -> (s: String)
    ensures
        s@ == head@ + dec(n as nat) + mid@ + dec(m as nat) + tail@,
{
    let mut s: String = text1(head, n, mid);
    push_dec(&mut s, m);
    s.append(tail);
    s
}

/// Four pieces of text with three numerals between them.
pub fn text3(a: &str, n: u128, b: &str, m: u128, c: &str, k: u128, d: &str) -> (s: String)
    ensures
        s@ == a@ + dec(n as nat) + b@ + dec(m as nat) + c@ + dec(k as nat) + d@,
{
    let mut s: String = text2(a, n, b, m, c);
    push_dec(&mut s, k);
    s.append(d);
    s
}

/// Five pieces of text with four numerals between them.
pub fn text4(
    a: &str,
    n: u128,
    b: &str,
    m: u128,
    c: &str,
    k: u128,
    d: &str,
    j: u128,
    e: &str,
) -> (s: String)
    ensures
        s@ == a@ + dec(n as nat) + b@ + dec(m as nat) + c@ + dec(k as nat) + d@ + dec(j as nat)
            + e@,
{
    let mut s: String = text3(a, n, b, m, c, k, d);
    push_dec(&mut s, j);
    s.append(e);
    s
}

/// The hexadecimal digit of a number below sixteen.
pub open spec fn hex_char(d: nat) -> char {
    if d < 10 {
        (48 + d) as u8 as char
    } else {
        (87 + d) as u8 as char
    }
}

/// The hexadecimal numeral of `n`, without leading zeros.
pub open spec fn hex(n: nat) -> Seq<char>
    decreases n,
{
    if n < 16 {
        seq![hex_char(n)]
    } else {
        hex(n / 16).push(hex_char(n % 16))
    }
}

fn push_hex_digit(s: &mut String, d: u32)
    requires
        d < 16,
    ensures
        final(s)@ == old(s)@.push(hex_char(d as nat)),
{
    if d < 10 {
        s.push((48u8 + d as u8) as char);
    } else {
        s.push((87u8 + d as u8) as char);
    }
}

/// Appends the hexadecimal numeral of `n`.
pub fn push_hex(s: &mut String, n: u32)
    ensures
        final(s)@ == old(s)@ + hex(n as nat),
    decreases n,
{
    if n >= 16 {
        push_hex(s, n / 16);
    }
    push_hex_digit(s, n % 16);
    proof {
        assert(s@ =~= old(s)@ + hex(n as nat));
    }
}

/// Appends the hexadecimal numeral of `n` in `width` digits.
pub fn push_hex_padded(s: &mut String, n: u32, width: u32)
    ensures
        final(s)@ == old(s)@ + hex_padded(n as nat, width as nat),
    decreases width,
{
    if width > 0 {
        push_hex_padded(s, n / 16, width - 1);
        push_hex_digit(s, n % 16);
    }
    proof {
        assert(s@ =~= old(s)@ + hex_padded(n as nat, width as nat));
    }
}

/// The last `width` hexadecimal digits of `n`.
pub open spec fn hex_padded(n: nat, width: nat) -> Seq<char>
    decreases width,
{
    if width == 0 {
        Seq::empty()
    } else {
        hex_padded(n / 16, (width - 1) as nat).push(hex_char(n % 16))
    }
}

/// The characters of a string.
pub fn chars_of(s: &str) -> (v: Vec<char>)
    ensures
        v@ == s@,
{
    let mut v: Vec<char> = Vec::new();
    let mut it = s.chars();
    proof {
        assert(it.remaining() == s@);
    }
    loop
        invariant_except_break
            v@ + it.remaining() == s@,
            it.obeys_prophetic_iter_laws(),
            it.decrease() is Some,
        ensures
            v@ == s@,
        decreases it.decrease()->Some_0,
    {
        let ghost before = it.remaining();
        let ghost taken = v@;
        match it.next() {
            Some(c) => {
                v.push(c);
                proof {
                    assert(before =~= seq![c] + it.remaining());
                    assert(v@ + it.remaining() =~= taken + before);
                }
            },
            None => {
                proof {
                    assert(v@ =~= s@);
                }
                break ;
            },
        }
    }
    v
}

/// Two pieces of text, one after the other.
pub fn joined(head: &str, tail: &str) -> (s: String)
    ensures
        s@ == head@ + tail@,
{
    let mut s: String = head.to_string();
    s.append(tail);
    s
}

/// Three pieces of text, one after the other.
pub fn joined3(head: &str, mid: &str, tail: &str) -> (s: String)
    ensures
        s@ == head@ + mid@ + tail@,
{
    let mut s: String = joined(head, mid);
    s.append(tail);
    s
}

} // verus!
