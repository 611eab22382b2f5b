//! The key pool: a range of keys whose middle bytes are counted through.

use vstd::prelude::*;
use crate::overflow::{wrapped, WrappedInc, WrappedStep};
use crate::util::{copy_bytes, u8_vector, zeros};
use crate::text::{byte_list, chars_to_string, decimal, push_byte_list, push_decimal};
use crate::odometer::{
    all_max_from,
    count_from,
    counted,
    last_value_below,
    lemma_count_from_value,
    lemma_done_value,
    lemma_value_bound,
    lemma_wheel_positive,
    value,
    wheel,
};
use vstd::arithmetic::div_mod::{lemma_fundamental_div_mod, lemma_fundamental_div_mod_converse, lemma_mod_bound};

verus! {

/// A range of keys.  A key is `static_ms_bytes ++ dynamic_bytes ++
/// static_ls_bytes`; the dynamic bytes are counted through like an odometer
/// (last byte fastest) until the first dynamic byte reaches
/// `dynamic_ms_cap` with every later dynamic byte at 255.
#[derive(Debug, Clone)]
pub struct KeyPool {
    pub dynamic_ms_cap: u8,
    pub dynamic_ms_start: u8,
    pub static_ms_bytes: Vec<u8>,
    pub dynamic_bytes: Vec<u8>,
    pub static_ls_bytes: Vec<u8>,
}

/// The mathematical content of a [`KeyPool`].
pub struct KeyPoolView {
    pub cap: u8,
    pub start: u8,
    pub static_ms: Seq<u8>,
    pub dynamic: Seq<u8>,
    pub static_ls: Seq<u8>,
}

impl View for KeyPool {
    type V = KeyPoolView;

    open spec fn view(&self) -> KeyPoolView {
        KeyPoolView {
            cap: self.dynamic_ms_cap,
            start: self.dynamic_ms_start,
            static_ms: self.static_ms_bytes@,
            dynamic: self.dynamic_bytes@,
            static_ls: self.static_ls_bytes@,
        }
    }
}

impl KeyPoolView {
    /// The range is exhausted: the first dynamic byte stands at the cap and
    /// every later dynamic byte at 255.
    pub open spec fn done(self) -> bool {
        &&& self.dynamic.len() > 0
        &&& self.dynamic[0] == self.cap
        &&& forall|i: int| 1 <= i < self.dynamic.len() ==> self.dynamic[i] == 255
    }

    /// The whole key: prefix, counted bytes, suffix.
    pub open spec fn key(self) -> Seq<u8> {
        self.static_ms + self.dynamic + self.static_ls
    }

    /// How far apart the first counted bytes of the partitions lie when the
    /// range is split `partition_count` ways, truncated to a byte.  With a
    /// cap of zero the width split is the `256 - first` values from the
    /// first dynamic byte to the end of the wheel; with any other cap it is
    /// `cap + 1`.
    pub open spec fn split_step(self, partition_count: u64) -> u8 {
        if self.cap == 0 {
            ((256 - self.dynamic[0]) / (partition_count as int)) as u8
        } else {
            ((self.cap + 1) / (partition_count as int)) as u8
        }
    }

    /// The `i`-th partition of a split into `partition_count` parts: it
    /// starts `i` steps past the first dynamic byte and is capped one step
    /// further on.
    pub open spec fn partition(self, partition_count: u64, i: int) -> KeyPoolView {
        let step = self.split_step(partition_count);
        let first = wrapped(self.dynamic[0], i * step);
        KeyPoolView {
            cap: wrapped(self.dynamic[0], (i + 1) * step),
            start: first,
            static_ms: self.static_ms,
            dynamic: self.dynamic.update(0, first),
            static_ls: self.static_ls,
        }
    }

    /// The range after `k` further keys.
    pub open spec fn advanced(self, k: nat) -> KeyPoolView {
        KeyPoolView { dynamic: count_from(self.dynamic, k), ..self }
    }

    /// How many keys are left before the range is exhausted.
    pub open spec fn steps_to_done(self) -> nat {
        ((last_value_below(self.cap, self.dynamic.len()) - value(self.dynamic)) % (wheel(
            self.dynamic.len(),
        ) as int)) as nat
    }

    /// The text form of the pool: cap and start in decimal, then the list
    /// of dynamic bytes.
    pub open spec fn describe(self) -> Seq<char> {
        seq!['('] + decimal(self.cap as nat) + seq![','] + decimal(self.start as nat) + seq![':']
            + byte_list(self.dynamic) + seq![')']
    }

    /// The same range, one key further on.
    pub open spec fn next_key(self) -> KeyPoolView {
        KeyPoolView { dynamic: counted(self.dynamic), ..self }
    }
}

impl KeyPool {
    /// A pool with `ms_bytes` leading, `dy_bytes` counted and `ls_bytes`
    /// trailing bytes, all zero; the cap of zero means that the first
    /// counted byte runs all the way round.
    pub fn new(ms_bytes: u8, dy_bytes: u8, ls_bytes: u8) -> (r: KeyPool)
        ensures
            r@.cap == 0,
            r@.start == 0,
            r@.static_ms == zeros(ms_bytes as nat),
            r@.dynamic == zeros(dy_bytes as nat),
            r@.static_ls == zeros(ls_bytes as nat),
    {
        KeyPool {
            dynamic_ms_cap: 0,
            dynamic_ms_start: 0,
            static_ms_bytes: u8_vector(ms_bytes),
            dynamic_bytes: u8_vector(dy_bytes),
            static_ls_bytes: u8_vector(ls_bytes),
        }
    }

    /// A copy of the pool, field by field.
    fn duplicate(&self) -> (r: KeyPool)
        ensures
            r@ == self@,
    {
        KeyPool {
            dynamic_ms_cap: self.dynamic_ms_cap,
            dynamic_ms_start: self.dynamic_ms_start,
            static_ms_bytes: copy_bytes(&self.static_ms_bytes),
            dynamic_bytes: copy_bytes(&self.dynamic_bytes),
            static_ls_bytes: copy_bytes(&self.static_ls_bytes),
        }
    }

    /// Whether the first counted byte has reached the cap.
    pub fn is_cap_reached(&self) -> (r: bool)
        requires
            self.dynamic_bytes.len() > 0,
        ensures
            r == (self@.dynamic[0] == self@.cap),
    {
        self.dynamic_bytes[0] == self.dynamic_ms_cap
    }

    /// Whether the range is exhausted.
    pub fn is_done(&self) -> (r: bool)
        requires
            self.dynamic_bytes.len() > 0,
        ensures
            r == self@.done(),
    {
        let mut done = true;
        let len = self.dynamic_bytes.len();
        let mut idx: usize = 1;
        while idx < len
            invariant_except_break
                1 <= idx <= len,
                done,
                forall|i: int| 1 <= i < idx ==> self.dynamic_bytes@[i] == 255,
            invariant
                len == self.dynamic_bytes.len(),
            ensures
                done <==> forall|i: int| 1 <= i < len ==> self.dynamic_bytes@[i] == 255,
            decreases len - idx,
        {
            if self.dynamic_bytes[idx] != 255 {
                done = false;
                break;
            }
            idx += 1;
        }
        if done && self.is_cap_reached() {
            true
        } else {
            false
        }
    }

    /// The whole key as one vector.
    pub fn to_vec(&self) -> (r: Vec<u8>)
        ensures
            r@ == self@.key(),
    {
        let mut output: Vec<u8> = Vec::new();
        let mut i: usize = 0;
        while i < self.static_ms_bytes.len()
            invariant
                i <= self.static_ms_bytes.len(),
                output@ == self.static_ms_bytes@.take(i as int),
            decreases self.static_ms_bytes.len() - i,
        {
            output.push(self.static_ms_bytes[i]);
            i += 1;
            assert(output@ =~= self.static_ms_bytes@.take(i as int));
        }
        assert(self.static_ms_bytes@.take(i as int) =~= self.static_ms_bytes@);
        let mut j: usize = 0;
        while j < self.dynamic_bytes.len()
            invariant
                j <= self.dynamic_bytes.len(),
                output@ == self.static_ms_bytes@ + self.dynamic_bytes@.take(j as int),
            decreases self.dynamic_bytes.len() - j,
        {
            output.push(self.dynamic_bytes[j]);
            j += 1;
            assert(output@ =~= self.static_ms_bytes@ + self.dynamic_bytes@.take(j as int));
        }
        assert(self.dynamic_bytes@.take(j as int) =~= self.dynamic_bytes@);
        let mut k: usize = 0;
        while k < self.static_ls_bytes.len()
            invariant
                k <= self.static_ls_bytes.len(),
                output@ == self.static_ms_bytes@ + self.dynamic_bytes@ + self.static_ls_bytes@.take(
                    k as int,
                ),
            decreases self.static_ls_bytes.len() - k,
        {
            output.push(self.static_ls_bytes[k]);
            k += 1;
            assert(output@ =~= self.static_ms_bytes@ + self.dynamic_bytes@
                + self.static_ls_bytes@.take(k as int));
        }
        assert(self.static_ls_bytes@.take(k as int) =~= self.static_ls_bytes@);
        output
    }

    /// Increments the dynamic bytes to emulate counting.
    pub fn inc(&self) -> (r: KeyPool)
        requires
            self.dynamic_bytes.len() > 0,
        ensures
            r@ == self@.next_key(),
    {
        let ghost s = self.dynamic_bytes@;
        let mut slf = self.duplicate();
        let mut idx: usize = self.dynamic_bytes.len() - 1;
        assert(slf.dynamic_bytes@.take(idx + 1) =~= s);
        assert(counted(s) + slf.dynamic_bytes@.skip(idx + 1) =~= counted(s));
        loop
            invariant_except_break
                idx < slf.dynamic_bytes.len(),
                counted(s) == counted(slf.dynamic_bytes@.take(idx + 1)) + slf.dynamic_bytes@.skip(
                    idx + 1,
                ),
            invariant
                slf.dynamic_bytes@.len() == s.len(),
                s.len() > 0,
                slf@.cap == self@.cap,
                slf@.start == self@.start,
                slf@.static_ms == self@.static_ms,
                slf@.static_ls == self@.static_ls,
            ensures
                slf.dynamic_bytes@ == counted(s),
            decreases idx,
        {
            // bounds checking
            if slf.dynamic_bytes.len() == 0 || idx > slf.dynamic_bytes.len() - 1 {
                break;
            }
            let ghost t = slf.dynamic_bytes@;
            let old_value = slf.dynamic_bytes[idx];
            let new_value = old_value.inc();
            slf.dynamic_bytes.set(idx, new_value);
            let progress = old_value > new_value;
            proof {
                let t2 = slf.dynamic_bytes@;
                assert(t.take(idx + 1).drop_last() =~= t.take(idx as int));
                assert(t2.take(idx as int) =~= t.take(idx as int));
                if old_value == 255 {
                    assert(t2.skip(idx as int) =~= seq![0u8] + t.skip(idx + 1));
                    assert(counted(t.take(idx as int)).push(0) + t.skip(idx + 1) =~= counted(
                        t2.take(idx as int),
                    ) + t2.skip(idx as int));
                    if idx == 0 {
                        assert(counted(t2.take(0)) =~= t2.take(0));
                        assert(t2 =~= t2.take(0) + t2.skip(0));
                    }
                } else {
                    assert(t2.take(idx + 1) =~= t.take(idx as int).push(new_value));
                    assert(t2 =~= t2.take(idx + 1) + t2.skip(idx + 1));
                }
            }
            if progress && idx != 0 {
                idx -= 1;
            } else {
                break;
            }
        }
        slf
    }

    /// Splits the range into `parition_count` consecutive partitions of
    /// equal width, each capped where the next one starts.
    pub fn split_key(&self, parition_count: u64) -> (output: Vec<KeyPool>)
        requires
            self.dynamic_bytes.len() > 0,
            parition_count > 0,
        ensures
            output@.len() == parition_count,
            forall|i: int|
                0 <= i < parition_count ==> #[trigger] output@[i]@ == self@.partition(
                    parition_count,
                    i,
                ),
    {
        let mut output: Vec<KeyPool> = Vec::new();
        let mut dynamic_bytes = copy_bytes(&self.dynamic_bytes);
        let step = if self.dynamic_ms_cap == 0 {
            let o = #[verifier::truncate] (((256 - self.dynamic_bytes[0] as u64) / parition_count) as u8);
            o
        } else {
            #[verifier::truncate] (((self.dynamic_ms_cap as u64 + 1) / parition_count) as u8)
        };
        assert(step == self@.split_step(parition_count));
        let ghost d0 = self.dynamic_bytes@[0];
        let mut n: u64 = 0;
        while n < parition_count
            invariant
                n <= parition_count,
                self.dynamic_bytes@.len() > 0,
                d0 == self.dynamic_bytes@[0],
                step == self@.split_step(parition_count),
                dynamic_bytes@ == self.dynamic_bytes@.update(0, wrapped(d0, n * step)),
                output@.len() == n,
                forall|i: int|
                    0 <= i < n ==> #[trigger] output@[i]@ == self@.partition(parition_count, i),
            decreases parition_count - n,
        {
            let db = copy_bytes(&dynamic_bytes);
            let cap = dynamic_bytes[0].step(&step);
            proof {
                let a = n * step;
                assert((n + 1) * step == a + step) by (nonlinear_arith)
                    requires
                        a == n * step,
                ;
                assert(((a + d0) % 256 + step) % 256 == (a + d0 + step) % 256) by {
                    vstd::arithmetic::div_mod::lemma_add_mod_noop(a + d0, step as int, 256);
                    vstd::arithmetic::div_mod::lemma_mod_twice(step as int, 256);
                    vstd::arithmetic::div_mod::lemma_mod_twice(a + d0, 256);
                }
                assert(cap == wrapped(d0, (n + 1) * step));
            }
            output.push(
                KeyPool {
                    dynamic_ms_cap: cap,
                    dynamic_ms_start: db[0],
                    static_ms_bytes: copy_bytes(&self.static_ms_bytes),
                    dynamic_bytes: db,
                    static_ls_bytes: copy_bytes(&self.static_ls_bytes),
                },
            );
            let next_first = dynamic_bytes[0].step(&step);
            dynamic_bytes.set(0, next_first);
            proof {
                assert(output@[n as int]@ == self@.partition(parition_count, n as int));
                assert(dynamic_bytes@ =~= self.dynamic_bytes@.update(0, wrapped(d0, (n + 1) * step)));
            }
            n += 1;
        }
        output
    }

    /// The pool one key further on, or `None` once the range is exhausted.
    /// The pool itself is left as it is.
    pub fn next(&mut self) -> (r: Option<KeyPool>)
        requires
            old(self).dynamic_bytes.len() > 0,
        ensures
            *final(self) == *old(self),
            r is Some <==> !old(self)@.done(),
            r matches Some(k) ==> k@ == old(self)@.next_key(),
    {
        if !self.is_done() {
            Some(self.inc())
        } else {
            None
        }
    }

    /// The pool written as `(cap,start:[b0, b1, ...])`, with the numbers in
    /// decimal and the list holding the dynamic bytes.
    pub fn to_string(&self) -> (r: String)
        ensures
            r@ == self@.describe(),
    {
        let mut out: Vec<char> = Vec::new();
        out.push('(');
        push_decimal(&mut out, self.dynamic_ms_cap);
        out.push(',');
        push_decimal(&mut out, self.dynamic_ms_start);
        out.push(':');
        push_byte_list(&mut out, &self.dynamic_bytes);
        out.push(')');
        proof {
            assert(out@ =~= seq!['('] + decimal(self.dynamic_ms_cap as nat) + seq![',']
                + decimal(self.dynamic_ms_start as nat) + seq![':'] + byte_list(
                self.dynamic_bytes@,
            ) + seq![')']);
        }
        chars_to_string(&out)
    }
}

/// Counting through a pool ends: from any pool with dynamic bytes, the
/// range is exhausted after exactly `steps_to_done` further keys, and not
/// before; that count is below the number of values the dynamic bytes can
/// take.
pub proof fn lemma_counting_reaches_done(p: KeyPoolView)
    requires
        p.dynamic.len() > 0,
    ensures
        p.steps_to_done() < wheel(p.dynamic.len()),
        p.advanced(p.steps_to_done()).done(),
        forall|k: nat| k < p.steps_to_done() ==> !#[trigger] p.advanced(k).done(),
{
    let s = p.dynamic;
    let n = s.len();
    let w = wheel(n) as int;
    let d = last_value_below(p.cap, n) as int;
    let v = value(s) as int;
    lemma_wheel_positive(n);
    lemma_value_bound(s);
    lemma_done_value(s, p.cap);
    let steps = (d - v) % w;
    lemma_mod_bound(d - v, w);
    lemma_fundamental_div_mod(d - v, w);
    let q = (d - v) / w;
    assert(d - v == w * q + steps);
    assert(p.steps_to_done() == steps);
    let t = count_from(s, steps as nat);
    lemma_count_from_value(s, steps as nat);
    assert(v + steps == (-q) * w + d) by (nonlinear_arith)
        requires
            d - v == w * q + steps,
    ;
    lemma_fundamental_div_mod_converse(v + steps, w, -q, d);
    lemma_done_value(t, p.cap);
    assert(p.advanced(steps as nat).dynamic == t);
    assert forall|k: nat| k < p.steps_to_done() implies !#[trigger] p.advanced(k).done() by {
        let u = count_from(s, k);
        lemma_count_from_value(s, k);
        lemma_done_value(u, p.cap);
        if p.advanced(k).done() {
            assert(all_max_from(u, 1));
            assert(value(u) == d);
            lemma_fundamental_div_mod(v + k, w);
            let q2 = (v + k) / w;
            assert(v + k == w * q2 + d);
            let m = q2 + q;
            assert(k - steps == w * m) by (nonlinear_arith)
                requires
                    v + k == w * q2 + d,
                    d - v == w * q + steps,
                    m == q2 + q,
            ;
            if m >= 0 {
                assert(w * m >= 0) by (nonlinear_arith)
                    requires
                        w > 0,
                        m >= 0,
                ;
            } else {
                assert(w * m <= -w) by (nonlinear_arith)
                    requires
                        w > 0,
                        m <= -1,
                ;
            }
        }
    }
}

/// One step of counting takes one key off what is left, and a pool has no
/// keys left exactly when it is exhausted.
pub proof fn lemma_step_shortens_range(p: KeyPoolView)
    requires
        p.dynamic.len() > 0,
    ensures
        p.done() <==> p.steps_to_done() == 0,
        !p.done() ==> p.next_key().steps_to_done() == p.steps_to_done() - 1,
        p.next_key().dynamic.len() == p.dynamic.len(),
{
    lemma_counting_reaches_done(p);
    crate::odometer::lemma_counted_value(p.dynamic);
    assert(p.advanced(0) == p) by {
        assert(p.advanced(0).dynamic =~= p.dynamic);
    }
    if p.steps_to_done() > 0 {
        let q = p.next_key();
        lemma_counting_reaches_done(q);
        let m = (p.steps_to_done() - 1) as nat;
        assert forall|k: nat| #[trigger] q.advanced(k) == p.advanced(k + 1) by {
            lemma_advanced_shift(p.dynamic, k);
        }
        assert(q.advanced(q.steps_to_done()) == p.advanced(q.steps_to_done() + 1));
        assert(q.advanced(m) == p.advanced(p.steps_to_done()));
        if q.steps_to_done() < m {
            assert(!p.advanced(q.steps_to_done() + 1).done());
        } else if q.steps_to_done() > m {
            assert(!q.advanced(m).done());
        }
    }
}

/// Counting `k` steps from the next key is counting `k + 1` steps.
proof fn lemma_advanced_shift(s: Seq<u8>, k: nat)
    ensures
        count_from(counted(s), k) == count_from(s, k + 1),
    decreases k,
{
    if k > 0 {
        lemma_advanced_shift(s, (k - 1) as nat);
    } else {
        assert(count_from(s, 1) == counted(count_from(s, 0)));
    }
}

/// Splitting hands out consecutive partitions: the first starts at the
/// pool's first dynamic byte, each partition's cap is where the next one
/// starts, each partition's first dynamic byte is its start, and every
/// partition keeps the pool's fixed bytes and later dynamic bytes.
pub proof fn lemma_partitions_contiguous(p: KeyPoolView, partition_count: u64, i: int)
    requires
        p.dynamic.len() > 0,
        partition_count > 0,
        0 <= i < partition_count,
    ensures
        p.partition(partition_count, 0).start == p.dynamic[0],
        i + 1 < partition_count ==> p.partition(partition_count, i).cap == p.partition(
            partition_count,
            i + 1,
        ).start,
        p.partition(partition_count, i).dynamic[0] == p.partition(partition_count, i).start,
        p.partition(partition_count, i).dynamic.len() == p.dynamic.len(),
        p.partition(partition_count, i).dynamic.skip(1) == p.dynamic.skip(1),
        p.partition(partition_count, i).static_ms == p.static_ms,
        p.partition(partition_count, i).static_ls == p.static_ls,
{
    let step = p.split_step(partition_count);
    assert(0 * step == 0);
    assert(p.partition(partition_count, i).dynamic.skip(1) =~= p.dynamic.skip(1));
}

/// Where the partition count divides the width of the range evenly, the
/// last partition ends where the pool itself ends: at the end of the wheel
/// (cap 0) for a pool capped at 0, and at the pool's cap for a pool that
/// starts at 0 with a cap the count divides, split at least two ways.
pub proof fn lemma_split_ends_at_cap(p: KeyPoolView, partition_count: u64)
    requires
        p.dynamic.len() > 0,
        partition_count > 0,
        p.cap == 0 ==> (256 - p.dynamic[0]) % (partition_count as int) == 0,
        p.cap != 0 ==> p.dynamic[0] == 0 && partition_count > 1 && (p.cap as int) % (partition_count as int) == 0,
    ensures
        p.partition(partition_count, partition_count - 1).cap == p.cap,
{
    let n = partition_count as int;
    let d0 = p.dynamic[0] as int;
    let step = p.split_step(partition_count) as int;
    let last = p.partition(partition_count, n - 1);
    if p.cap == 0 {
        let width = 256 - d0;
        vstd::arithmetic::div_mod::lemma_fundamental_div_mod(width, n);
        let q = width / n;
        assert(width == n * q);
        if q == 256 {
            assert(n == 1) by (nonlinear_arith)
                requires
                    256 == n * q,
                    q == 256,
            ;
            assert(d0 == 0);
            assert(256int as u8 == 0u8) by (bit_vector);
            assert(step == 0);
            assert(n * step == 0) by (nonlinear_arith)
                requires
                    step == 0,
            ;
        } else {
            assert(0 <= q <= 256) by (nonlinear_arith)
                requires
                    width == n * q,
                    0 < width <= 256,
                    n >= 1,
            ;
            assert(step == q);
            assert(n * step == width);
            vstd::arithmetic::div_mod::lemma_mod_self_0(256);
        }
    } else {
        let c = p.cap as int;
        vstd::arithmetic::div_mod::lemma_fundamental_div_mod(c, n);
        let q = c / n;
        assert(c == n * q);
        assert(c + 1 == n * q + 1);
        vstd::arithmetic::div_mod::lemma_fundamental_div_mod_converse(c + 1, n, q, 1);
        assert(0 <= q < 256) by (nonlinear_arith)
            requires
                c == n * q,
                0 < c < 256,
                n >= 1,
        ;
        assert(step == q);
        assert(n * step == c);
        vstd::arithmetic::div_mod::lemma_small_mod(c as nat, 256);
    }
}

/// The width a split divides: with a cap of zero the values from the first
/// dynamic byte to the end of the wheel, otherwise `cap + 1` values.
pub open spec fn split_width(p: KeyPoolView) -> int {
    if p.cap == 0 {
        256 - p.dynamic[0]
    } else {
        p.cap + 1
    }
}

/// The step of a split is the width shared out evenly and rounded down:
/// `n` steps fit in the width and `n + 1` do not.  The one step that does
/// not fit in a byte, the whole wheel of 256 taken in one part, wraps to 0.
/// For a pool capped at 0, the partitions therefore stay on the wheel: they
/// start `i` steps past the first dynamic byte without wrapping, and all
/// `n` steps together end no later than the end of the wheel.
pub proof fn lemma_split_step_rounds_down(p: KeyPoolView, n: u64)
    requires
        p.dynamic.len() > 0,
        n > 0,
    ensures
        split_width(p) < 256 || n > 1 ==> n * p.split_step(n) <= split_width(p) < n * (
        p.split_step(n) + 1),
        split_width(p) == 256 && n == 1 ==> p.split_step(n) == 0,
        p.cap == 0 ==> p.dynamic[0] + n * p.split_step(n) <= 256,
        p.cap == 0 ==> forall|i: int|
            0 <= i < n ==> #[trigger] p.partition(n, i).start == p.dynamic[0] + i * p.split_step(n),
{
    let w = split_width(p);
    let m = n as int;
    let d0 = p.dynamic[0] as int;
    vstd::arithmetic::div_mod::lemma_fundamental_div_mod(w, m);
    vstd::arithmetic::div_mod::lemma_mod_bound(w, m);
    let q = w / m;
    let r = w % m;
    assert(w == m * q + r);
    assert(0 < w <= 256);
    assert(0 <= q <= 256) by (nonlinear_arith)
        requires
            w == m * q + r,
            0 <= r < m,
            0 < w <= 256,
            m >= 1,
    ;
    if w == 256 && m == 1 {
        assert(q == 256) by (nonlinear_arith)
            requires
                w == m * q + r,
                0 <= r < m,
                m == 1,
                w == 256,
        ;
        assert(256int as u8 == 0u8) by (bit_vector);
        assert(p.split_step(n) == 0);
    } else {
        assert(q < 256) by (nonlinear_arith)
            requires
                w == m * q + r,
                0 <= r < m,
                0 < w <= 256,
                m >= 1,
                w < 256 || m > 1,
        ;
        assert(p.split_step(n) == q);
        assert(m * q <= w < m * (q + 1)) by (nonlinear_arith)
            requires
                w == m * q + r,
                0 <= r < m,
        ;
    }
    if p.cap == 0 {
        let s = p.split_step(n) as int;
        if w == 256 && m == 1 {
            assert(m * s == 0) by (nonlinear_arith)
                requires
                    s == 0,
            ;
        }
        assert(m * s <= w);
        assert forall|i: int| 0 <= i < n implies #[trigger] p.partition(n, i).start == d0 + i * s by {
            assert(0 <= i * s && d0 + i * s < 256) by (nonlinear_arith)
                requires
                    0 <= i < m,
                    0 <= s,
                    m * s <= w,
                    w == 256 - d0,
                    0 <= d0 < 256,
            ;
            vstd::arithmetic::div_mod::lemma_small_mod((d0 + i * s) as nat, 256);
        }
    }
}

} // verus!
