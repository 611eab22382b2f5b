//! Decimal and list text for bytes.

use vstd::prelude::*;

verus! {

/// The character of a decimal digit.
pub open spec fn digit_char(d: nat) -> char
    recommends
        d < 10,
{
    ((48 + d) as u32) as char
}

/// `n` in decimal, without leading zeros.
pub open spec fn decimal(n: nat) -> Seq<char>
    decreases n,
{
    if n < 10 {
        seq![digit_char(n)]
    } else {
        decimal(n / 10).push(digit_char(n % 10))
    }
}

/// The decimal texts of the bytes, each followed by `", "` except the last.
pub open spec fn joined_bytes(s: Seq<u8>) -> Seq<char>
    decreases s.len(),
{
    if s.len() == 0 {
        seq![]
    } else if s.len() == 1 {
        decimal(s[0] as nat)
    } else {
        joined_bytes(s.drop_last()) + seq![',', ' '] + decimal(s.last() as nat)
    }
}

/// The bytes as a bracketed, comma-separated list: `[1, 2, 3]`.
pub open spec fn byte_list(s: Seq<u8>) -> Seq<char> {
    seq!['['] + joined_bytes(s) + seq![']']
}

fn digit(d: u8) -> (c: char)
    requires
        d < 10,
    ensures
        c == digit_char(d as nat),
{
    let c = (48u8 + d) as char;
    c
}

/// Appends `b` in decimal.
pub(crate) fn push_decimal(out: &mut Vec<char>, b: u8)
    ensures
        final(out)@ == old(out)@ + decimal(b as nat),
{
    if b >= 100 {
        out.push(digit(b / 100));
        out.push(digit((b / 10) % 10));
        out.push(digit(b % 10));
        proof {
            let n = b as nat;
            assert(decimal(n / 100) == seq![digit_char(n / 100)]);
            assert((n / 10) / 10 == n / 100);
            assert(decimal(n / 10) == decimal(n / 100).push(digit_char((n / 10) % 10)));
            assert(decimal(n) == decimal(n / 10).push(digit_char(n % 10)));
        }
    } else if b >= 10 {
        out.push(digit(b / 10));
        out.push(digit(b % 10));
        proof {
            let n = b as nat;
            assert(decimal(n / 10) == seq![digit_char(n / 10)]);
            assert(decimal(n) == decimal(n / 10).push(digit_char(n % 10)));
        }
    } else {
        out.push(digit(b));
    }
    assert(final(out)@ =~= old(out)@ + decimal(b as nat));
}

/// Appends the bytes as a bracketed, comma-separated list.
pub(crate) fn push_byte_list(out: &mut Vec<char>, bytes: &Vec<u8>)
    ensures
        final(out)@ == old(out)@ + byte_list(bytes@),
{
    let ghost start = out@;
    out.push('[');
    let mut i: usize = 0;
    while i < bytes.len()
        invariant
            i <= bytes.len(),
            out@ == start + seq!['['] + joined_bytes(bytes@.take(i as int)),
        decreases bytes.len() - i,
    {
        let ghost before = out@;
        if i > 0 {
            out.push(',');
            out.push(' ');
        }
        push_decimal(out, bytes[i]);
        proof {
            let t = bytes@.take(i + 1);
            assert(t.drop_last() =~= bytes@.take(i as int));
            assert(t.last() == bytes@[i as int]);
            if i == 0 {
                assert(t.len() == 1);
                assert(t[0] == bytes@[0]);
            }
        }
        i += 1;
        assert(out@ =~= start + seq!['['] + joined_bytes(bytes@.take(i as int)));
    }
    out.push(']');
    assert(bytes@.take(i as int) =~= bytes@);
    assert(out@ =~= start + byte_list(bytes@));
}

/// The characters collected into a `String` (std's `FromIterator<&char>`
/// for `String`, which appends each character in order).
#[verifier::external_body]
pub(crate) fn chars_to_string(chars: &Vec<char>) -> (s: String)
    ensures
        s@ == chars@,
{
    chars.iter().collect()
}

/// The characters of `s`, in order.
pub(crate) fn chars_of(s: &str) -> (v: Vec<char>)
    ensures
        v@ == s@,
{
    broadcast use vstd::string::group_string_axioms;

    let mut v: Vec<char> = Vec::new();
    for c in it: s.chars()
        invariant
            v@ == it.seq().take(it.index() as int),
            it.seq() == s@,
    {
        v.push(c);
        assert(v@ =~= it.seq().take(it.index() + 1));
    }
    assert(v@ =~= s@);
    v
}

} // verus!
