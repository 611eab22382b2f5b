//! The counting order of the dynamic bytes: an odometer over base-256
//! digits, most significant byte first.

use vstd::prelude::*;
use vstd::arithmetic::div_mod::{
    lemma_add_mod_noop,
    lemma_fundamental_div_mod_converse,
    lemma_mod_twice,
    lemma_small_mod,
};

verus! {

/// The odometer step on a sequence of bytes: the last byte is incremented,
/// and a byte that wraps from 255 to 0 carries into the byte before it.
/// A carry out of the first byte is dropped.
pub open spec fn counted(s: Seq<u8>) -> Seq<u8>
    decreases s.len(),
{
    if s.len() == 0 {
        s
    } else if s.last() == 255 {
        counted(s.drop_last()).push(0)
    } else {
        s.drop_last().push((s.last() + 1) as u8)
    }
}

/// The bytes read as a base-256 number, first byte most significant.
pub open spec fn value(s: Seq<u8>) -> nat
    decreases s.len(),
{
    if s.len() == 0 {
        0
    } else {
        (value(s.drop_last()) * 256 + s.last()) as nat
    }
}

/// How many distinct sequences of `n` bytes there are: 256 to the `n`.
pub open spec fn wheel(n: nat) -> nat
    decreases n,
{
    if n == 0 {
        1
    } else {
        wheel((n - 1) as nat) * 256
    }
}

/// `s` after `k` odometer steps.
pub open spec fn count_from(s: Seq<u8>, k: nat) -> Seq<u8>
    decreases k,
{
    if k == 0 {
        s
    } else {
        counted(count_from(s, (k - 1) as nat))
    }
}

/// The value of `n` bytes whose first byte is `first` and whose other bytes
/// are all 255.
pub open spec fn last_value_below(first: u8, n: nat) -> nat
    recommends
        n > 0,
{
    (first as nat * wheel((n - 1) as nat) + wheel((n - 1) as nat) - 1) as nat
}

/// Every byte from index `from` on is 255.
pub open spec fn all_max_from(s: Seq<u8>, from: int) -> bool {
    forall|i: int| from <= i < s.len() ==> s[i] == 255
}

pub proof fn lemma_wheel_positive(n: nat)
    ensures
        wheel(n) >= 1,
    decreases n,
{
    if n > 0 {
        lemma_wheel_positive((n - 1) as nat);
    }
}

/// A sequence of `n` bytes is worth less than `wheel(n)`.
pub proof fn lemma_value_bound(s: Seq<u8>)
    ensures
        value(s) < wheel(s.len()),
    decreases s.len(),
{
    if s.len() > 0 {
        let t = s.drop_last();
        lemma_value_bound(t);
        let v = value(t);
        let w = wheel(t.len());
        assert(v * 256 + s.last() < w * 256) by (nonlinear_arith)
            requires
                v < w,
                s.last() < 256,
        ;
    }
}

/// One odometer step keeps the length and adds one to the value, modulo
/// the number of distinct sequences of that length.
pub proof fn lemma_counted_value(s: Seq<u8>)
    ensures
        counted(s).len() == s.len(),
        value(counted(s)) == (value(s) + 1) % wheel(s.len()),
    decreases s.len(),
{
    if s.len() == 0 {
        assert(wheel(0) == 1);
        assert(s[0] * wheel(0) == s[0]) by (nonlinear_arith)
            requires
                wheel(0) == 1,
        ;
    } else {
        let t = s.drop_last();
        let w = wheel(t.len());
        let v = value(t);
        lemma_value_bound(t);
        lemma_wheel_positive(t.len());
        assert(s.len() == t.len() + 1);
        assert(wheel(s.len()) == w * 256);
        if s.last() == 255 {
            lemma_counted_value(t);
            let c = counted(t);
            assert(counted(s) == c.push(0));
            assert(counted(s).drop_last() =~= c);
            assert(value(counted(s)) == value(c) * 256);
            if v + 1 < w {
                lemma_small_mod((v + 1) as nat, w);
                assert((v + 1) * 256 < w * 256) by (nonlinear_arith)
                    requires
                        v + 1 < w,
                ;
                lemma_small_mod(((v + 1) * 256) as nat, w * 256);
                assert(value(s) + 1 == (v + 1) * 256);
            } else {
                assert(v + 1 == w);
                vstd::arithmetic::div_mod::lemma_mod_self_0(w as int);
                vstd::arithmetic::div_mod::lemma_mod_self_0((w * 256) as int);
                assert(value(s) + 1 == w * 256);
            }
        } else {
            let n = counted(s);
            assert(n.drop_last() =~= t);
            assert(value(s) + 1 < w * 256) by (nonlinear_arith)
                requires
                    v < w,
                    s.last() < 255,
                    value(s) == v * 256 + s.last(),
            ;
            lemma_small_mod((value(s) + 1) as nat, w * 256);
        }
    }
}

/// After `k` odometer steps the value has grown by `k`, modulo the number
/// of distinct sequences of that length.
pub proof fn lemma_count_from_value(s: Seq<u8>, k: nat)
    ensures
        count_from(s, k).len() == s.len(),
        value(count_from(s, k)) == (value(s) + k) % wheel(s.len()),
    decreases k,
{
    lemma_wheel_positive(s.len());
    let w = wheel(s.len()) as int;
    if k == 0 {
        lemma_value_bound(s);
        lemma_small_mod(value(s), w as nat);
    } else {
        lemma_count_from_value(s, (k - 1) as nat);
        let t = count_from(s, (k - 1) as nat);
        lemma_counted_value(t);
        lemma_add_mod_noop(value(s) + k - 1, 1, w);
        lemma_mod_twice(value(s) + k - 1, w);
        if w > 1 {
            lemma_small_mod(1, w as nat);
        } else {
            lemma_fundamental_div_mod_converse((value(s) + k) as int, 1, (value(s) + k) as int, 0);
            lemma_fundamental_div_mod_converse((value(t) + 1) as int, 1, (value(t) + 1) as int, 0);
        }
    }
}

/// The value splits into the first byte and the value of the rest.
pub proof fn lemma_value_first(s: Seq<u8>)
    requires
        s.len() > 0,
    ensures
        value(s) == s[0] * wheel((s.len() - 1) as nat) + value(s.skip(1)),
    decreases s.len(),
{
    if s.len() == 1 {
        assert(s.drop_last().len() == 0);
        assert(s.skip(1).len() == 0);
        assert(value(s.drop_last()) == 0);
        assert(value(s.skip(1)) == 0);
        assert(s.last() == s[0]);
        assert(wheel(0) == 1);
        assert(s[0] * wheel(0) == s[0]) by (nonlinear_arith)
            requires
                wheel(0) == 1,
        ;
    } else {
        let t = s.drop_last();
        lemma_value_first(t);
        assert(t.skip(1) =~= s.skip(1).drop_last());
        assert(s.skip(1).last() == s.last());
        assert(value(s.skip(1)) == value(t.skip(1)) * 256 + s.last());
        assert(value(s) == value(t) * 256 + s.last());
        assert(t[0] == s[0]);
        let a = s[0] as int;
        let w2 = wheel((t.len() - 1) as nat) as int;
        let r = value(t.skip(1)) as int;
        assert(wheel((s.len() - 1) as nat) == w2 * 256);
        assert(value(t) == a * w2 + r);
        assert((a * w2 + r) * 256 + s.last() == a * (w2 * 256) + (r * 256 + s.last()))
            by (nonlinear_arith);
        assert(value(s) == a * (w2 * 256) + value(s.skip(1)));
    }
}

/// The value is one less than `wheel(n)` exactly when every byte is 255.
pub proof fn lemma_value_all_max(s: Seq<u8>)
    ensures
        value(s) == wheel(s.len()) - 1 <==> all_max_from(s, 0),
    decreases s.len(),
{
    if s.len() > 0 {
        let t = s.drop_last();
        lemma_value_all_max(t);
        lemma_value_bound(t);
        let v = value(t) as int;
        let w = wheel(t.len()) as int;
        assert(wheel(s.len()) == w * 256);
        if all_max_from(s, 0) {
            assert(all_max_from(t, 0));
            assert(s.last() == s[s.len() - 1]);
            assert(v * 256 + 255 == w * 256 - 1) by (nonlinear_arith)
                requires
                    v == w - 1,
            ;
        }
        if value(s) == wheel(s.len()) - 1 {
            assert(v == w - 1 && s.last() == 255) by (nonlinear_arith)
                requires
                    v * 256 + s.last() == w * 256 - 1,
                    0 <= v < w,
                    0 <= s.last() <= 255,
            ;
            assert forall|i: int| 0 <= i < s.len() implies s[i] == 255 by {
                if i < s.len() - 1 {
                    assert(s[i] == t[i]);
                }
            }
        }
    }
}

/// A non-empty sequence has its first byte at `first` and all later bytes
/// at 255 exactly when its value is `last_value_below(first, len)`.
pub proof fn lemma_done_value(s: Seq<u8>, first: u8)
    requires
        s.len() > 0,
    ensures
        (s[0] == first && all_max_from(s, 1)) <==> value(s) == last_value_below(first, s.len()),
        last_value_below(first, s.len()) < wheel(s.len()),
{
    let n = s.len();
    let rest = s.skip(1);
    let w = wheel((n - 1) as nat) as int;
    lemma_value_first(s);
    lemma_value_all_max(rest);
    lemma_value_bound(rest);
    lemma_wheel_positive((n - 1) as nat);
    assert(wheel(n) == w * 256);
    assert(all_max_from(s, 1) <==> all_max_from(rest, 0)) by {
        if all_max_from(rest, 0) {
            assert forall|i: int| 1 <= i < s.len() implies s[i] == 255 by {
                assert(s[i] == rest[i - 1]);
            }
        }
        if all_max_from(s, 1) {
            assert forall|i: int| 0 <= i < rest.len() implies rest[i] == 255 by {
                assert(rest[i] == s[i + 1]);
            }
        }
    }
    assert(first * w + w - 1 < w * 256) by (nonlinear_arith)
        requires
            first <= 255,
            w >= 1,
    ;
    if value(s) == last_value_below(first, n) {
        let r = value(rest) as int;
        lemma_fundamental_div_mod_converse(value(s) as int, w, s[0] as int, r);
        lemma_fundamental_div_mod_converse(value(s) as int, w, first as int, w - 1);
    }
}

} // verus!
