//! The text of an `.r4c` file: hexadecimal digits, two per byte, with an
//! optional final newline.

use vstd::prelude::*;
use crate::text::chars_of;

verus! {

/// A digit that `u8::from_str_radix(_, 16)` accepts on its own.
pub open spec fn is_hex_digit(c: char) -> bool {
    ||| '0' <= c <= '9'
    ||| 'a' <= c <= 'f'
    ||| 'A' <= c <= 'F'
}

/// The value of a hexadecimal digit.
pub open spec fn hex_value(c: char) -> nat {
    if '0' <= c <= '9' {
        (c as nat - '0' as nat) as nat
    } else if 'a' <= c <= 'f' {
        (c as nat - 'a' as nat + 10) as nat
    } else {
        (c as nat - 'A' as nat + 10) as nat
    }
}

/// The digits of a file's text: the text without one final newline.
pub open spec fn r4c_digits(s: Seq<char>) -> Seq<char> {
    if s.len() > 0 && s.last() == '\n' {
        s.drop_last()
    } else {
        s
    }
}

/// Every digit of the file's text is a hexadecimal digit.
pub open spec fn all_hex_digits(s: Seq<char>) -> bool {
    forall|i: int| 0 <= i < r4c_digits(s).len() ==> is_hex_digit(#[trigger] r4c_digits(s)[i])
}

/// The bytes that pairs of digits spell, high digit first; an odd last
/// digit spells nothing.
pub open spec fn hex_bytes(d: Seq<char>) -> Seq<u8> {
    Seq::new(d.len() / 2, |i: int| (hex_value(d[2 * i]) * 16 + hex_value(d[2 * i + 1])) as u8)
}

/// The hexadecimal digit for a value below 16: `0`-`9`, then `a`-`f`, or
/// `A`-`F` when `upper`.
pub open spec fn hex_char(v: nat, upper: bool) -> char
    recommends
        v < 16,
{
    if v < 10 {
        ((48 + v) as u32) as char
    } else if upper {
        ((55 + v) as u32) as char
    } else {
        ((87 + v) as u32) as char
    }
}

/// The bytes written out as hexadecimal text, two digits per byte, high
/// digit first.
pub open spec fn hex_text(bs: Seq<u8>, upper: bool) -> Seq<char> {
    Seq::new(
        2 * bs.len(),
        |i: int|
            if i % 2 == 0 {
                hex_char((bs[i / 2] / 16) as nat, upper)
            } else {
                hex_char((bs[i / 2] % 16) as nat, upper)
            },
    )
}

/// The hexadecimal digits are exactly `0`-`9`, `a`-`f` and `A`-`F` with
/// the values 0 to 15: every value below 16 has a digit in either case that
/// is accepted and valued at it, and every accepted digit is such a digit.
pub proof fn lemma_hex_digits(v: nat, upper: bool, c: char)
    requires
        v < 16,
    ensures
        is_hex_digit(hex_char(v, upper)),
        hex_value(hex_char(v, upper)) == v,
        is_hex_digit(c) ==> hex_value(c) < 16 && c == hex_char(hex_value(c), 'A' <= c <= 'F'),
{
    let h = hex_char(v, upper);
    if v < 10 {
        assert(h as u32 == 48 + v);
    } else if upper {
        assert(h as u32 == 55 + v);
    } else {
        assert(h as u32 == 87 + v);
    }
    if is_hex_digit(c) {
        let k = hex_value(c);
        if '0' <= c <= '9' {
            assert(hex_char(k, false) as u32 == c as u32);
        } else if 'a' <= c <= 'f' {
            assert(hex_char(k, false) as u32 == c as u32);
        } else {
            assert(hex_char(k, true) as u32 == c as u32);
        }
    }
}

/// Decoding undoes writing out: any bytes written as hexadecimal text, in
/// either case and with or without a final newline, make a text whose
/// every digit is hexadecimal and which decodes to those same bytes.
pub proof fn lemma_hex_round_trip(bs: Seq<u8>, upper: bool)
    ensures
        all_hex_digits(hex_text(bs, upper)),
        all_hex_digits(hex_text(bs, upper).push('\n')),
        hex_bytes(r4c_digits(hex_text(bs, upper))) == bs,
        hex_bytes(r4c_digits(hex_text(bs, upper).push('\n'))) == bs,
{
    let t = hex_text(bs, upper);
    assert forall|i: int| 0 <= i < t.len() implies is_hex_digit(#[trigger] t[i]) && t[i] != '\n' by {
        let b = bs[i / 2];
        if i % 2 == 0 {
            lemma_hex_digits((b / 16) as nat, upper, 'a');
        } else {
            lemma_hex_digits((b % 16) as nat, upper, 'a');
        }
    }
    if t.len() > 0 {
        assert(t.last() == t[t.len() - 1]);
    }
    assert(r4c_digits(t) == t);
    assert(t.push('\n').drop_last() =~= t);
    assert(r4c_digits(t.push('\n')) == t);
    assert forall|i: int| 0 <= i < bs.len() implies #[trigger] hex_bytes(t)[i] == bs[i] by {
        let b = bs[i];
        assert((2 * i) % 2 == 0 && (2 * i) / 2 == i);
        assert((2 * i + 1) % 2 == 1 && (2 * i + 1) / 2 == i);
        lemma_hex_digits((b / 16) as nat, upper, 'a');
        lemma_hex_digits((b % 16) as nat, upper, 'a');
        assert(hex_value(t[2 * i]) == b / 16);
        assert(hex_value(t[2 * i + 1]) == b % 16);
        assert((b / 16) * 16 + b % 16 == b);
    }
    assert(hex_bytes(t) =~= bs);
}

fn hex_digit_value(c: char) -> (v: u8)
    requires
        is_hex_digit(c),
    ensures
        v == hex_value(c),
        v < 16,
{
    if '0' <= c && c <= '9' {
        (c as u32 - '0' as u32) as u8
    } else if 'a' <= c && c <= 'f' {
        (c as u32 - 'a' as u32 + 10) as u8
    } else {
        (c as u32 - 'A' as u32 + 10) as u8
    }
}

/// The bytes of an `.r4c` file's text: one final newline is dropped, each
/// pair of hexadecimal digits makes one byte, high digit first, and an odd
/// last digit is left over.
pub fn decode_r4c(buf: &str) -> (output: Vec<u8>)
    requires
        all_hex_digits(buf@),
    ensures
        output@ == hex_bytes(r4c_digits(buf@)),
{
    let all = chars_of(buf);
    let mut n = all.len();
    if n > 0 && all[n - 1] == '\n' {
        n = n - 1;
    }
    let ghost d = r4c_digits(buf@);
    assert(d =~= all@.take(n as int));
    let mut output: Vec<u8> = Vec::new();
    let mut count: usize = 0;
    let mut tmp: u8 = 0;
    while count < n
        invariant
            n <= all@.len(),
            d == all@.take(n as int),
            d.len() == n,
            forall|i: int| 0 <= i < d.len() ==> is_hex_digit(#[trigger] d[i]),
            count <= n,
            output@ == hex_bytes(d.take(count as int)),
            count % 2 == 1 ==> tmp == hex_value(d[count - 1]) * 16,
        decreases n - count,
    {
        assert(all@[count as int] == d[count as int]);
        assert(is_hex_digit(d[count as int]));
        let u4 = hex_digit_value(all[count]);
        if count % 2 == 0 {
            tmp = u4 << 4;
            assert(u4 << 4 == u4 * 16) by (bit_vector)
                requires
                    u4 < 16,
            ;
        } else {
            let back = tmp | u4;
            assert(back == tmp + u4) by (bit_vector)
                requires
                    back == tmp | u4,
                    u4 < 16,
                    tmp % 16 == 0,
            ;
            output.push(back);
        }
        count += 1;
        proof {
            let t = d.take(count as int);
            if count % 2 == 0 {
                assert(hex_bytes(t) =~= output@);
            } else {
                assert(hex_bytes(t) =~= hex_bytes(d.take(count - 1)));
            }
        }
    }
    assert(d.take(n as int) =~= d);
    output
}

fn is_hex_char(c: char) -> (r: bool)
    ensures
        r == is_hex_digit(c),
{
    ('0' <= c && c <= '9') || ('a' <= c && c <= 'f') || ('A' <= c && c <= 'F')
}

/// Where an `.r4c` file's text stops being hexadecimal: the index of the
/// first digit (after one final newline is dropped) that is no hexadecimal
/// digit, or `None` when every digit is one.
pub fn first_bad_digit(buf: &str) -> (r: Option<usize>)
    ensures
        r is None <==> all_hex_digits(buf@),
        r matches Some(i) ==> {
            &&& i < r4c_digits(buf@).len()
            &&& !is_hex_digit(r4c_digits(buf@)[i as int])
            &&& forall|j: int| 0 <= j < i ==> is_hex_digit(#[trigger] r4c_digits(buf@)[j])
        },
{
    let all = chars_of(buf);
    let mut n = all.len();
    if n > 0 && all[n - 1] == '\n' {
        n = n - 1;
    }
    let ghost d = r4c_digits(buf@);
    assert(d =~= all@.take(n as int));
    let mut i: usize = 0;
    while i < n
        invariant
            n <= all@.len(),
            d == all@.take(n as int),
            i <= n,
            d.len() == n,
            d == r4c_digits(buf@),
            forall|j: int| 0 <= j < i ==> is_hex_digit(#[trigger] d[j]),
        decreases n - i,
    {
        assert(d[i as int] == all@[i as int]);
        if !is_hex_char(all[i]) {
            assert(!is_hex_digit(r4c_digits(buf@)[i as int]));
            return Some(i);
        }
        i += 1;
    }
    None
}

} // verus!
