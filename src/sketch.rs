//! The sketch: `2^p` one-byte registers, the cached count of zero registers,
//! the cached sum of `2^(-register)`, and optional deletion counters.

use crate::bits::{get_rho, rho_of, weight, weight_of};
use crate::config::{configured, precision_for_error_rate, ConfigError, MAX_PRECISION, MIN_PRECISION};
use crate::counter::{
    decrement, decremented, increment, incremented, merge_for_intersect, merge_for_union,
    merged_for_intersect, merged_for_union, PIVOT,
};
use crate::laws::{keeps_top, lemma_union_row_top};
use crate::model::{
    highest_below, lemma_highest_below, lemma_prefix_step, lemma_top_bounds, lemma_top_is,
    lemma_weight_le, lemma_weight_sum_bound, lemma_weight_sum_update, lemma_zero_count_bound,
    lemma_zero_count_update, lemma_zeros_aggregates, max_rho, slots, top, weight_sum, zero_count,
    zeros,
};
use crate::sources::{hash_value, random_u64};
use std::hash::Hash;
use vstd::arithmetic::power2::{lemma2_to64, pow2};
use vstd::prelude::*;

verus! {

/// Why an operation on a sketch was refused.
#[derive(Debug, Clone, Copy, PartialEq, Eq, Structural)]
pub enum SketchError {
    /// The two sketches differ in precision or in whether they keep counters.
    Incompatible,
    /// The sketch keeps no deletion counters, so it cannot delete.
    DeleteUnsupported,
    /// Stored parts do not describe a sketch: a precision out of range, a
    /// register count other than `2^p`, a register above `65 - p`, or a row
    /// of counters of the wrong length.
    Malformed,
}

/// A HyperLogLog sketch with bias-corrected estimation support and optional
/// deletion counters.
#[derive(Clone, Debug)]
pub struct HyperLogLog {
    p: u8,
    zero: usize,
    sum: u128,
    registers: Vec<u8>,
    counters: Option<Vec<Vec<u8>>>,
}

/// The register that a hash selects.
pub open spec fn index_of(x: u64, m: nat) -> int {
    (x as nat % m) as int
}

/// Registers after pushing the hash `x`.
pub open spec fn pushed_registers(r: Seq<u8>, x: u64, p: nat) -> Seq<u8> {
    let i = index_of(x, r.len());
    let rho = rho_of(x, p as u8);
    r.update(i, if r[i] >= rho { r[i] } else { rho as u8 })
}

/// Counters after pushing the hash `x` into registers `r`, with draw `d`.
pub open spec fn pushed_counters(c: Seq<Seq<u8>>, r: Seq<u8>, x: u64, p: nat, d: u64) -> Seq<
    Seq<u8>,
> {
    let i = index_of(x, r.len());
    let k = pushed_registers(r, x, p)[i] as int;
    c.update(i, c[i].update(k, incremented(c[i][k], d)))
}

/// Counters after deleting the hash `x`, with draw `d`.
pub open spec fn deleted_counters(c: Seq<Seq<u8>>, m: nat, x: u64, p: nat, d: u64) -> Seq<Seq<u8>> {
    let i = index_of(x, m);
    let rho = rho_of(x, p as u8);
    if c[i][rho] == 0 {
        c
    } else {
        c.update(i, c[i].update(rho, decremented(c[i][rho], d)))
    }
}

/// Registers after deleting the hash `x`: when the counter of the
/// register's current value drops to zero, the register falls to the next
/// lower value that still has a nonzero counter, or to zero.
pub open spec fn deleted_registers(r: Seq<u8>, c: Seq<Seq<u8>>, x: u64, p: nat, d: u64) -> Seq<
    u8,
> {
    let i = index_of(x, r.len());
    let rho = rho_of(x, p as u8);
    if c[i][rho] != 0 && decremented(c[i][rho], d) == 0 && r[i] == rho {
        r.update(i, highest_below(c[i], rho - 1) as u8)
    } else {
        r
    }
}

/// Register-wise maximum.
pub open spec fn union_registers(a: Seq<u8>, b: Seq<u8>) -> Seq<u8> {
    Seq::new(a.len(), |i: int| if a[i] >= b[i] { a[i] } else { b[i] })
}

/// Register-wise minimum.
pub open spec fn intersect_registers(a: Seq<u8>, b: Seq<u8>) -> Seq<u8> {
    Seq::new(a.len(), |i: int| if a[i] <= b[i] { a[i] } else { b[i] })
}

/// The highest index `j <= k` where `t` or `f` is nonzero, or -1.
pub open spec fn last_either(t: Seq<u8>, f: Seq<u8>, k: int) -> int
    decreases k + 1,
{
    if k < 0 {
        -1
    } else if t[k] > 0 || f[k] > 0 {
        k
    } else {
        last_either(t, f, k - 1)
    }
}

/// The lowest index `j >= k` where `t` or `f` is nonzero, or -1.
pub open spec fn first_either(t: Seq<u8>, f: Seq<u8>, k: int) -> int
    decreases t.len() - k,
{
    if k >= t.len() || k < 0 {
        -1
    } else if t[k] > 0 || f[k] > 0 {
        k
    } else {
        first_either(t, f, k + 1)
    }
}

/// One row of counters after a union with draw `d`: the highest slot where
/// either row is nonzero is merged.
pub open spec fn union_row(t: Seq<u8>, f: Seq<u8>, d: u64) -> Seq<u8> {
    let j = last_either(t, f, t.len() - 1);
    if j < 0 {
        t
    } else {
        t.update(j, merged_for_union(t[j], f[j], d))
    }
}

/// One row of counters after an intersection with draw `d`: the lowest slot
/// where either row is nonzero is merged.
pub open spec fn intersect_row(t: Seq<u8>, f: Seq<u8>, d: u64) -> Seq<u8> {
    let j = first_either(t, f, 0);
    if j < 0 {
        t
    } else {
        t.update(j, merged_for_intersect(t[j], f[j], d))
    }
}

/// Whether `c` is the row `t` after a union with `f`, for some draw.
pub open spec fn is_union_row(t: Seq<u8>, f: Seq<u8>, c: Seq<u8>) -> bool {
    exists|d: u64| union_row(t, f, d) == c
}

/// Whether `c` is the row `t` after an intersection with `f`, for some draw.
pub open spec fn is_intersect_row(t: Seq<u8>, f: Seq<u8>, c: Seq<u8>) -> bool {
    exists|d: u64| intersect_row(t, f, d) == c
}

/// The values held by optional rows of counters.
pub open spec fn rows_view(c: Option<Vec<Vec<u8>>>) -> Option<Seq<Seq<u8>>> {
    match c {
        Some(rows) => Some(rows@.map_values(|row: Vec<u8>| row@)),
        None => None,
    }
}

/// `m` rows of `w` zero counters.
pub open spec fn zero_rows(m: nat, w: nat) -> Seq<Seq<u8>> {
    Seq::new(m, |i: int| Seq::new(w, |j: int| 0u8))
}

impl HyperLogLog {
    /// The precision `p`.
    pub closed spec fn precision_spec(&self) -> nat {
        self.p as nat
    }

    /// The registers.
    pub closed spec fn registers_spec(&self) -> Seq<u8> {
        self.registers@
    }

    /// The cached number of zero registers.
    pub closed spec fn zero_spec(&self) -> nat {
        self.zero as nat
    }

    /// The cached sum of `2^(-register)`, in units of `2^(-64)`.
    pub closed spec fn sum_spec(&self) -> nat {
        self.sum as nat
    }

    /// The deletion counters, one row per register, if the sketch keeps them.
    pub closed spec fn counters_spec(&self) -> Option<Seq<Seq<u8>>> {
        rows_view(self.counters)
    }

    /// Whether the sketch keeps deletion counters.
    pub open spec fn has_counters(&self) -> bool {
        self.counters_spec() is Some
    }

    /// The sketch's invariant: precision in range, `2^p` registers each at
    /// most `65 - p`, both caches exact, and one full row of counters per
    /// register when counters are kept.
    pub open spec fn wf(&self) -> bool {
        let p = self.precision_spec();
        let r = self.registers_spec();
        &&& MIN_PRECISION <= p <= MAX_PRECISION
        &&& r.len() == pow2(p)
        &&& forall|i: int| 0 <= i < r.len() ==> r[i] <= max_rho(p)
        &&& self.zero_spec() == zero_count(r)
        &&& self.sum_spec() == weight_sum(r)
        &&& self.counters_spec() matches Some(c) ==> c.len() == r.len() && forall|i: int|
            0 <= i < c.len() ==> #[trigger] c[i].len() == slots(p)
    }

    /// Each register equals the highest slot of its row that holds a nonzero
    /// counter (or 0). Trivially true without counters.
    pub open spec fn consistent(&self) -> bool {
        self.counters_spec() matches Some(c) ==> forall|i: int|
            0 <= i < self.registers_spec().len() ==> #[trigger] self.registers_spec()[i] == top(
                c[i],
            )
    }

    /// A sketch as constructed: every register and every counter zero.
    pub open spec fn is_fresh(&self, p: nat, with_counters: bool) -> bool {
        &&& self.wf()
        &&& self.precision_spec() == p
        &&& self.registers_spec() == zeros(pow2(p))
        &&& self.zero_spec() == pow2(p)
        &&& self.sum_spec() == pow2(p) * pow2(64)
        &&& self.counters_spec() == if with_counters {
            Some(zero_rows(pow2(p), slots(p) as nat))
        } else {
            None
        }
    }

    fn zero_row(w: usize) -> (row: Vec<u8>)
        ensures
            row@ == Seq::new(w as nat, |j: int| 0u8),
    {
        let mut row: Vec<u8> = Vec::new();
        let mut k: usize = 0;
        while k < w
            invariant
                k <= w,
                row@ == Seq::new(k as nat, |j: int| 0u8),
            decreases w - k,
        {
            row.push(0);
            k = k + 1;
            proof {
                assert(row@ =~= Seq::new(k as nat, |j: int| 0u8));
            }
        }
        row
    }

    fn zero_counters(m: usize, w: usize) -> (rows: Vec<Vec<u8>>)
        ensures
            rows@.map_values(|row: Vec<u8>| row@) == zero_rows(m as nat, w as nat),
    {
        let mut rows: Vec<Vec<u8>> = Vec::new();
        let mut i: usize = 0;
        while i < m
            invariant
                i <= m,
                rows@.len() == i,
                rows@.map_values(|row: Vec<u8>| row@) == zero_rows(i as nat, w as nat),
            decreases m - i,
        {
            let row = Self::zero_row(w);
            let ghost before = rows@;
            rows.push(row);
            i = i + 1;
            proof {
                assert forall|k: int| 0 <= k < i implies rows@.map_values(|row: Vec<u8>| row@)[k]
                    == zero_rows(i as nat, w as nat)[k] by {
                    if k < i - 1 {
                        assert(rows@[k] == before[k]);
                        assert(before.map_values(|row: Vec<u8>| row@)[k] == zero_rows(
                            (i - 1) as nat,
                            w as nat,
                        )[k]);
                    }
                }
                assert(rows@.map_values(|row: Vec<u8>| row@) =~= zero_rows(i as nat, w as nat));
            }
        }
        rows
    }

    /// An empty sketch of precision `p`, with or without deletion counters.
    pub fn with_precision(p: u8, with_counters: bool) -> (s: Self)
        requires
            MIN_PRECISION <= p <= MAX_PRECISION,
        ensures
            s.is_fresh(p as nat, with_counters),
            s.consistent(),
    {
        proof {
            lemma2_to64();
            vstd::arithmetic::power2::lemma_pow2_strictly_increases(p as nat, 17);
            vstd::bits::lemma_u64_shl_is_mul(1, p as u64);
        }
        let m: usize = (1u64 << p as u64) as usize;
        let mut registers: Vec<u8> = Vec::new();
        let mut i: usize = 0;
        while i < m
            invariant
                i <= m,
                registers@ == zeros(i as nat),
            decreases m - i,
        {
            registers.push(0);
            i = i + 1;
            proof {
                assert(registers@ =~= zeros(i as nat));
            }
        }
        proof {
            lemma_zeros_aggregates(m as nat);
            crate::model::lemma_weight_le(0);
        }
        let counters = if with_counters {
            Some(Self::zero_counters(m, 66 - p as usize))
        } else {
            None
        };
        let s = HyperLogLog {
            p,
            zero: m,
            sum: (m as u128) * 0x1_0000_0000_0000_0000u128,
            registers,
            counters,
        };
        proof {
            if with_counters {
                let c = s.counters_spec().unwrap();
                assert forall|i: int| 0 <= i < s.registers_spec().len() implies #[trigger] s.registers_spec()[i] == top(c[i]) by {
                    lemma_top_is(c[i], 0);
                }
            }
        }
        s
    }

    /// An empty sketch for the error rate `numerator / denominator`, without
    /// deletion counters.
    pub fn new(numerator: u32, denominator: u32) -> (r: Result<Self, ConfigError>)
        ensures
            configured(
                numerator as nat,
                denominator as nat,
                match r {
                    Ok(s) => Ok(s.precision_spec() as u8),
                    Err(e) => Err(e),
                },
            ),
            r matches Ok(s) ==> s.is_fresh(s.precision_spec(), false),
    {
        match precision_for_error_rate(numerator, denominator) {
            Ok(p) => Ok(Self::with_precision(p, false)),
            Err(e) => Err(e),
        }
    }

    /// An empty sketch for the error rate `numerator / denominator`, with
    /// deletion counters.
    pub fn new_with_counters(numerator: u32, denominator: u32) -> (r: Result<Self, ConfigError>)
        ensures
            configured(
                numerator as nat,
                denominator as nat,
                match r {
                    Ok(s) => Ok(s.precision_spec() as u8),
                    Err(e) => Err(e),
                },
            ),
            r matches Ok(s) ==> s.is_fresh(s.precision_spec(), true) && s.consistent(),
    {
        match precision_for_error_rate(numerator, denominator) {
            Ok(p) => Ok(Self::with_precision(p, true)),
            Err(e) => Err(e),
        }
    }

    /// An empty sketch with the precision of `other`, keeping counters if
    /// `other` keeps them.
    pub fn new_from(other: &Self) -> (s: Self)
        requires
            other.wf(),
        ensures
            s.is_fresh(other.precision_spec(), other.has_counters()),
            s.consistent(),
    {
        Self::with_precision(other.p, other.counters.is_some())
    }

    /// Whether this sketch is `before` after pushing the hash `x`: the
    /// selected register rises to the hash's rho, and, when counters are
    /// kept, the counter of the register's new value counts one insertion.
    pub open spec fn pushed_from(&self, before: &Self, x: u64) -> bool {
        let p = before.precision_spec();
        let r = before.registers_spec();
        &&& self.wf()
        &&& self.precision_spec() == p
        &&& self.registers_spec() == pushed_registers(r, x, p)
        &&& match before.counters_spec() {
            None => self.counters_spec() is None,
            Some(c) => exists|d: u64| #[trigger]
                self.counters_spec() == Some(pushed_counters(c, r, x, p, d)),
        }
        &&& before.consistent() ==> self.consistent()
    }

    proof fn lemma_sizes(&self)
        requires
            self.wf(),
        ensures
            16 <= self.registers@.len() <= 65536,
            self.registers@.len() == pow2(self.p as nat),
    {
        lemma2_to64();
        if self.p < 16 {
            vstd::arithmetic::power2::lemma_pow2_strictly_increases(self.p as nat, 16);
        }
        if self.p > 4 {
            vstd::arithmetic::power2::lemma_pow2_strictly_increases(4, self.p as nat);
        }
    }

    /// Sets register `i` to `v`, keeping both caches exact.
    fn set_register(&mut self, i: usize, v: u8)
        requires
            old(self).wf(),
            i < old(self).registers@.len(),
            v <= max_rho(old(self).p as nat),
        ensures
            final(self).p == old(self).p,
            final(self).counters == old(self).counters,
            final(self).registers@ == old(self).registers@.update(i as int, v),
            final(self).wf(),
    {
        let old_v = self.registers[i];
        proof {
            self.lemma_sizes();
            lemma_zero_count_update(self.registers@, i as int, v);
            lemma_weight_sum_update(self.registers@, i as int, v);
            lemma_weight_le(old_v as int);
            lemma_weight_le(v as int);
            lemma_weight_sum_bound(self.registers@);
            lemma_zero_count_bound(self.registers@);
        }
        let add_zero: usize = if v == 0 { 1 } else { 0 };
        let sub_zero: usize = if old_v == 0 { 1 } else { 0 };
        self.zero = self.zero + add_zero - sub_zero;
        self.sum = self.sum + weight_of(v) - weight_of(old_v);
        self.registers.set(i, v);
        proof {
            assert forall|k: int| 0 <= k < self.registers@.len() implies self.registers@[k]
                <= max_rho(self.p as nat) by {
                assert(k != i ==> self.registers@[k] == old(self).registers@[k]);
            }
        }
    }

    /// Records the hash `x` of a value.
    pub fn push_hash(&mut self, x: u64)
        requires
            old(self).wf(),
        ensures
            final(self).pushed_from(old(self), x),
    {
        proof {
            self.lemma_sizes();
        }
        let m = self.registers.len();
        let i = (x % (m as u64)) as usize;
        let rho = get_rho(x, self.p);
        let cur = self.registers[i];
        let new = if cur >= rho { cur } else { rho };
        let ghost r0 = self.registers@;
        let ghost c0 = self.counters_spec();
        let ghost mut draw: u64 = 0;
        let taken = self.counters.take();
        match taken {
            Some(mut rows) => {
                let ghost rows0 = rows@;
                let mut row: Vec<u8> = Vec::new();
                rows.set_and_swap(i, &mut row);
                proof {
                    assert(row@ == c0.unwrap()[i as int]);
                }
                let c = row[new as usize];
                let d = if c > PIVOT {
                    random_u64()
                } else {
                    0
                };
                row.set(new as usize, increment(c, d));
                rows.set_and_swap(i, &mut row);
                proof {
                    draw = d;
                    let f = |row: Vec<u8>| row@;
                    assert(rows@ == rows0.update(i as int, rows@[i as int]));
                    assert(rows@.map_values(f) =~= c0.unwrap().update(
                        i as int,
                        c0.unwrap()[i as int].update(new as int, incremented(c, d)),
                    ));
                }
                self.counters = Some(rows);
            },
            None => {},
        }
        self.set_register(i, new);
        proof {
            let p = self.p as nat;
            assert(self.registers@ == pushed_registers(r0, x, p));
            if c0 is Some {
                let c = c0.unwrap();
                assert(self.counters_spec() == Some(pushed_counters(c, r0, x, p, draw)));
                if old(self).consistent() {
                    let ci = c[i as int];
                    let ni = self.counters_spec().unwrap()[i as int];
                    lemma_top_bounds(ci);
                    lemma_top_is(ni, new as int);
                    assert forall|k: int| 0 <= k < self.registers@.len() implies #[trigger]
                        self.registers@[k] == top(self.counters_spec().unwrap()[k]) by {
                        if k != i {
                            assert(self.counters_spec().unwrap()[k] == c[k]);
                        }
                    }
                }
            }
        }
    }

    /// Records a value: hashes it and pushes the hash.
    pub fn push<V: Hash + ?Sized>(&mut self, value: &V)
        requires
            old(self).wf(),
        ensures
            exists|x: u64| #[trigger] final(self).pushed_from(old(self), x),
    {
        let x = hash_value(value);
        self.push_hash(x);
    }

    /// Whether this sketch is `before` (which keeps counters) after deleting
    /// the hash `x` with some draw.
    pub open spec fn deleted_from(&self, before: &Self, x: u64) -> bool {
        let p = before.precision_spec();
        let r = before.registers_spec();
        let c = before.counters_spec().unwrap();
        &&& self.wf()
        &&& self.precision_spec() == p
        &&& exists|d: u64| #[trigger] deleted_registers(r, c, x, p, d) == self.registers_spec()
            && self.counters_spec() == Some(deleted_counters(c, r.len(), x, p, d))
        &&& before.consistent() ==> self.consistent()
    }

    /// Removes one occurrence of the hash `x`. Only a sketch with counters
    /// can delete; any other is left unchanged.
    pub fn delete_hash(&mut self, x: u64) -> (r: Result<(), SketchError>)
        requires
            old(self).wf(),
        ensures
            !old(self).has_counters() ==> r == Err::<(), SketchError>(
                SketchError::DeleteUnsupported,
            ) && *final(self) == *old(self),
            old(self).has_counters() ==> r is Ok && final(self).deleted_from(old(self), x),
    {
        if self.counters.is_none() {
            return Err(SketchError::DeleteUnsupported);
        }
        proof {
            self.lemma_sizes();
        }
        let m = self.registers.len();
        let i = (x % (m as u64)) as usize;
        let rho = get_rho(x, self.p);
        let ghost r0 = self.registers@;
        let ghost c0 = self.counters_spec().unwrap();
        let ghost ci = c0[i as int];
        let ghost mut draw: u64 = 0;
        let mut rows = self.counters.take().unwrap();
        let ghost rows0 = rows@;
        let mut row: Vec<u8> = Vec::new();
        rows.set_and_swap(i, &mut row);
        proof {
            assert(row@ == ci);
        }
        let c = row[rho as usize];
        let mut lowered = false;
        let mut below: u8 = 0;
        if c >= 1 {
            let d = if c > PIVOT {
                random_u64()
            } else {
                0
            };
            proof {
                draw = d;
            }
            let nc = decrement(c, d);
            row.set(rho as usize, nc);
            if nc == 0 && self.registers[i] == rho {
                let mut k: u8 = rho - 1;
                while k > 0 && row[k as usize] == 0
                    invariant
                        k < rho,
                        row@.len() == ci.len(),
                        rho < ci.len(),
                        forall|j: int| 0 <= j < rho ==> row@[j] == ci[j],
                        highest_below(ci, k as int) == highest_below(ci, rho - 1),
                    decreases k,
                {
                    k = k - 1;
                }
                lowered = true;
                below = k;
            }
        }
        let ghost new_row = row@;
        rows.set_and_swap(i, &mut row);
        proof {
            let f = |row: Vec<u8>| row@;
            assert(rows@ == rows0.update(i as int, rows@[i as int]));
            assert(rows@.map_values(f) =~= c0.update(i as int, new_row));
        }
        self.counters = Some(rows);
        if lowered {
            self.set_register(i, below);
        }
        proof {
            let p = self.p as nat;
            let nrow = self.counters_spec().unwrap()[i as int];
            assert(self.counters_spec() == Some(deleted_counters(c0, r0.len(), x, p, draw))) by {
                if c != 0 {
                    assert(nrow =~= ci.update(rho as int, decremented(c, draw)));
                } else {
                    assert(nrow =~= ci);
                    assert(c0.update(i as int, ci) =~= c0);
                }
            }
            assert(deleted_registers(r0, c0, x, p, draw) == self.registers@);
            if old(self).consistent() {
                lemma_top_bounds(ci);
                if c != 0 {
                    if lowered {
                        lemma_highest_below(ci, rho - 1);
                        lemma_top_is(nrow, below as int);
                    } else {
                        lemma_top_is(nrow, top(ci));
                    }
                }
                assert forall|k: int| 0 <= k < self.registers@.len() implies #[trigger]
                    self.registers@[k] == top(self.counters_spec().unwrap()[k]) by {
                    if k != i {
                        assert(self.counters_spec().unwrap()[k] == c0[k]);
                    }
                }
            }
        }
        Ok(())
    }

    /// Removes one occurrence of a value: hashes it and deletes the hash.
    pub fn delete<V: Hash + ?Sized>(&mut self, value: &V) -> (r: Result<(), SketchError>)
        requires
            old(self).wf(),
        ensures
            !old(self).has_counters() ==> r == Err::<(), SketchError>(
                SketchError::DeleteUnsupported,
            ) && *final(self) == *old(self),
            old(self).has_counters() ==> r is Ok && exists|x: u64| #[trigger]
                final(self).deleted_from(old(self), x),
    {
        let x = hash_value(value);
        self.delete_hash(x)
    }

    /// Replaces the registers by their register-wise maximum (or minimum)
    /// with `other`'s, and recomputes both caches from the result.
    fn merge_registers(&mut self, other: &Self, keep_max: bool)
        requires
            old(self).wf(),
            other.wf(),
            old(self).p == other.p,
        ensures
            final(self).wf(),
            final(self).p == old(self).p,
            final(self).counters == old(self).counters,
            final(self).registers@ == if keep_max {
                union_registers(old(self).registers@, other.registers@)
            } else {
                intersect_registers(old(self).registers@, other.registers@)
            },
    {
        proof {
            self.lemma_sizes();
        }
        let ghost a = self.registers@;
        let ghost b = other.registers@;
        let ghost target = if keep_max {
            union_registers(a, b)
        } else {
            intersect_registers(a, b)
        };
        let m = self.registers.len();
        let mut zero: usize = 0;
        let mut sum: u128 = 0;
        let mut i: usize = 0;
        while i < m
            invariant
                i <= m,
                m == a.len(),
                m == b.len(),
                b == other.registers@,
                m <= 65536,
                target.len() == m,
                target == if keep_max {
                    union_registers(a, b)
                } else {
                    intersect_registers(a, b)
                },
                self.p == old(self).p,
                self.counters == old(self).counters,
                self.registers@.len() == m,
                forall|k: int| 0 <= k < i ==> self.registers@[k] == target[k],
                forall|k: int| i <= k < m ==> self.registers@[k] == a[k],
                forall|k: int| 0 <= k < m ==> a[k] <= max_rho(self.p as nat),
                forall|k: int| 0 <= k < m ==> b[k] <= max_rho(self.p as nat),
                4 <= self.p <= 16,
                zero as nat == zero_count(target.take(i as int)),
                sum as nat == weight_sum(target.take(i as int)),
                zero <= i,
                sum <= i * 0x1_0000_0000_0000_0000,
            decreases m - i,
        {
            let x = self.registers[i];
            let y = other.registers[i];
            let v = if keep_max {
                if x >= y {
                    x
                } else {
                    y
                }
            } else {
                if x <= y {
                    x
                } else {
                    y
                }
            };
            proof {
                lemma_prefix_step(target, i as int);
                lemma_weight_le(v as int);
            }
            self.registers.set(i, v);
            if v == 0 {
                zero = zero + 1;
            }
            sum = sum + weight_of(v);
            i = i + 1;
        }
        proof {
            assert(target.take(m as int) =~= target);
            assert(self.registers@ =~= target);
        }
        self.zero = zero;
        self.sum = sum;
    }

    /// Merges `other`'s counters into this sketch's, row by row; returns
    /// the draw used for each row.
    fn merge_counters(&mut self, other: &Self, for_union: bool) -> (ds: Ghost<Seq<u64>>)
        requires
            old(self).wf(),
            other.wf(),
            old(self).p == other.p,
        ensures
            final(self).wf(),
            final(self).p == old(self).p,
            final(self).registers == old(self).registers,
            final(self).counters_spec() is Some == old(self).counters_spec() is Some,
            old(self).counters_spec() matches Some(a) ==> match other.counters_spec() {
                Some(b) => {
                    let c = final(self).counters_spec().unwrap();
                    &&& c.len() == a.len()
                    &&& ds@.len() == a.len()
                    &&& for_union ==> forall|k: int|
                        0 <= k < a.len() ==> #[trigger] c[k] == union_row(a[k], b[k], ds@[k])
                    &&& !for_union ==> forall|k: int|
                        0 <= k < a.len() ==> #[trigger] c[k] == intersect_row(a[k], b[k], ds@[k])
                },
                None => final(self).counters_spec() == old(self).counters_spec(),
            },
    {
        let ghost mut ds: Seq<u64> = Seq::empty();
        let taken = self.counters.take();
        match taken {
            Some(mut rows) => {
                match &other.counters {
                    Some(from) => {
                        let ghost rows0 = rows@;
                        proof {
                            let f = |row: Vec<u8>| row@;
                            assert forall|k: int| 0 <= k < from@.len() implies #[trigger] rows@[k]@.len()
                                == from@[k]@.len() by {
                                assert(rows@.map_values(f)[k] == rows@[k]@);
                                assert(from@.map_values(f)[k] == from@[k]@);
                            }
                        }
                        let draws = merge_rows(&mut rows, from, for_union);
                        proof {
                            let f = |row: Vec<u8>| row@;
                            ds = draws@;
                            let c = rows@.map_values(f);
                            let a = rows0.map_values(f);
                            let b = from@.map_values(f);
                            assert forall|k: int| 0 <= k < c.len() implies #[trigger] c[k].len()
                                == slots(self.p as nat) by {
                                assert(c[k] == rows@[k]@);
                                assert(a[k] == rows0[k]@);
                            }
                            assert forall|k: int| 0 <= k < a.len() implies #[trigger] c[k] == (
                            if for_union {
                                union_row(a[k], b[k], ds[k])
                            } else {
                                intersect_row(a[k], b[k], ds[k])
                            }) by {
                                assert(c[k] == rows@[k]@);
                                assert(a[k] == rows0[k]@);
                                assert(b[k] == from@[k]@);
                            }
                        }
                    },
                    None => {},
                }
                self.counters = Some(rows);
            },
            None => {},
        }
        Ghost(ds)
    }

    /// Whether this sketch is `before` after a union with `other`.
    pub open spec fn united_from(&self, before: &Self, other: &Self) -> bool {
        &&& self.wf()
        &&& self.precision_spec() == before.precision_spec()
        &&& self.registers_spec() == union_registers(
            before.registers_spec(),
            other.registers_spec(),
        )
        &&& match (before.counters_spec(), other.counters_spec()) {
            (Some(a), Some(b)) => self.counters_spec() matches Some(c) && c.len() == a.len()
                && forall|i: int| 0 <= i < a.len() ==> #[trigger] is_union_row(a[i], b[i], c[i]),
            _ => self.counters_spec() is None,
        }
    }

    /// Whether this sketch is `before` after an intersection with `other`.
    pub open spec fn intersected_from(&self, before: &Self, other: &Self) -> bool {
        &&& self.wf()
        &&& self.precision_spec() == before.precision_spec()
        &&& self.registers_spec() == intersect_registers(
            before.registers_spec(),
            other.registers_spec(),
        )
        &&& match (before.counters_spec(), other.counters_spec()) {
            (Some(a), Some(b)) => self.counters_spec() matches Some(c) && c.len() == a.len()
                && forall|i: int| 0 <= i < a.len() ==> #[trigger] is_intersect_row(a[i], b[i], c[i]),
            _ => self.counters_spec() is None,
        }
    }

    /// Whether, row by row, a union with `other` cannot lose the top
    /// counter (see `keeps_top`). Trivially true without counters.
    pub open spec fn union_keeps_tops(&self, other: &Self) -> bool {
        match (self.counters_spec(), other.counters_spec()) {
            (Some(a), Some(b)) => forall|i: int| 0 <= i < a.len() ==> #[trigger] keeps_top(a[i], b[i]),
            _ => true,
        }
    }

    /// Whether two sketches can be combined: same precision, and counters
    /// kept by both or by neither.
    pub open spec fn compatible(&self, other: &Self) -> bool {
        self.precision_spec() == other.precision_spec() && self.has_counters()
            == other.has_counters()
    }

    /// Merges `other` into this sketch: the union of the two streams.
    pub fn union(&mut self, other: &Self) -> (r: Result<(), SketchError>)
        requires
            old(self).wf(),
            other.wf(),
        ensures
            !old(self).compatible(other) ==> r == Err::<(), SketchError>(SketchError::Incompatible)
                && *final(self) == *old(self),
            old(self).compatible(other) ==> r is Ok,
            old(self).compatible(other) ==> final(self).united_from(old(self), other),
            old(self).compatible(other) && old(self).consistent() && other.consistent()
                && old(self).union_keeps_tops(other) ==> final(self).consistent(),
    {
        if self.p != other.p || self.counters.is_some() != other.counters.is_some() {
            return Err(SketchError::Incompatible);
        }
        self.merge_registers(other, true);
        let ds = self.merge_counters(other, true);
        proof {
            if old(self).has_counters() {
                let a = old(self).counters_spec().unwrap();
                let b = other.counters_spec().unwrap();
                let c = self.counters_spec().unwrap();
                assert forall|k: int| 0 <= k < a.len() implies #[trigger] is_union_row(a[k], b[k], c[k]) by {
                    assert(c[k] == union_row(a[k], b[k], ds@[k]));
                }
                if old(self).consistent() && other.consistent() && old(self).union_keeps_tops(other) {
                    let r = self.registers_spec();
                    assert forall|k: int| 0 <= k < r.len() implies #[trigger] r[k] == top(c[k]) by {
                        assert(c[k] == union_row(a[k], b[k], ds@[k]));
                        assert(keeps_top(a[k], b[k]));
                        lemma_union_row_top(a[k], b[k], ds@[k]);
                        assert(old(self).registers_spec()[k] == top(a[k]));
                        assert(other.registers_spec()[k] == top(b[k]));
                    }
                }
            }
        }
        Ok(())
    }

    /// Intersects `other` into this sketch: the register-wise minimum.
    pub fn intersect(&mut self, other: &Self) -> (r: Result<(), SketchError>)
        requires
            old(self).wf(),
            other.wf(),
        ensures
            !old(self).compatible(other) ==> r == Err::<(), SketchError>(SketchError::Incompatible)
                && *final(self) == *old(self),
            old(self).compatible(other) ==> r is Ok,
            old(self).compatible(other) ==> final(self).intersected_from(old(self), other),
    {
        if self.p != other.p || self.counters.is_some() != other.counters.is_some() {
            return Err(SketchError::Incompatible);
        }
        self.merge_registers(other, false);
        let ds = self.merge_counters(other, false);
        proof {
            if old(self).has_counters() {
                let a = old(self).counters_spec().unwrap();
                let b = other.counters_spec().unwrap();
                let c = self.counters_spec().unwrap();
                assert forall|k: int| 0 <= k < a.len() implies #[trigger] is_intersect_row(a[k], b[k], c[k]) by {
                    assert(c[k] == intersect_row(a[k], b[k], ds@[k]));
                }
            }
        }
        Ok(())
    }

    /// Resets the sketch to the state it had when constructed.
    pub fn clear(&mut self)
        requires
            old(self).wf(),
        ensures
            final(self).is_fresh(old(self).precision_spec(), old(self).has_counters()),
            final(self).consistent(),
    {
        *self = Self::with_precision(self.p, self.counters.is_some());
    }

    /// Whether no value has been recorded: every register is zero.
    pub fn is_empty(&self) -> (r: bool)
        requires
            self.wf(),
        ensures
            r == (self.zero_spec() == self.registers_spec().len()),
            r == forall|i: int| 0 <= i < self.registers_spec().len() ==> self.registers_spec()[i] == 0,
    {
        proof {
            lemma_zero_count_bound(self.registers@);
        }
        self.zero == self.registers.len()
    }

    /// The precision `p`.
    pub fn precision(&self) -> (r: u8)
        ensures
            r as nat == self.precision_spec(),
    {
        self.p
    }

    /// The number of registers equal to zero.
    pub fn zero_count(&self) -> (r: usize)
        ensures
            r as nat == self.zero_spec(),
    {
        self.zero
    }

    /// The sum of `2^(-register)` over all registers, in units of `2^(-64)`.
    pub fn scaled_sum(&self) -> (r: u128)
        ensures
            r as nat == self.sum_spec(),
    {
        self.sum
    }

    /// The registers.
    pub fn registers(&self) -> (r: &Vec<u8>)
        ensures
            r@ == self.registers_spec(),
    {
        &self.registers
    }

    /// The deletion counters, one row per register, if the sketch keeps them.
    pub fn counters(&self) -> (r: &Option<Vec<Vec<u8>>>)
        ensures
            rows_view(*r) == self.counters_spec(),
    {
        &self.counters
    }

    /// Whether stored parts describe a sketch of precision `p`.
    pub open spec fn parts_valid(p: u8, registers: Seq<u8>, counters: Option<Seq<Seq<u8>>>) -> bool {
        &&& MIN_PRECISION <= p <= MAX_PRECISION
        &&& registers.len() == pow2(p as nat)
        &&& forall|i: int| 0 <= i < registers.len() ==> registers[i] <= max_rho(p as nat)
        &&& counters matches Some(c) ==> c.len() == registers.len() && forall|i: int|
            0 <= i < c.len() ==> #[trigger] c[i].len() == slots(p as nat)
    }

    /// Rebuilds a sketch from its precision, registers and counters, as
    /// stored; both caches are recomputed from the registers.
    pub fn from_parts(p: u8, registers: Vec<u8>, counters: Option<Vec<Vec<u8>>>) -> (r: Result<
        Self,
        SketchError,
    >)
        ensures
            Self::parts_valid(p, registers@, rows_view(counters)) <==> r is Ok,
            r matches Err(e) ==> e == SketchError::Malformed,
            r matches Ok(s) ==> s.wf() && s.precision_spec() == p && s.registers_spec()
                == registers@ && s.counters_spec() == rows_view(counters),
    {
        let ghost cv = rows_view(counters);
        if p < MIN_PRECISION || p > MAX_PRECISION {
            return Err(SketchError::Malformed);
        }
        proof {
            lemma2_to64();
            vstd::arithmetic::power2::lemma_pow2_strictly_increases(p as nat, 17);
            vstd::bits::lemma_u64_shl_is_mul(1, p as u64);
        }
        let m: usize = (1u64 << p as u64) as usize;
        if registers.len() != m {
            return Err(SketchError::Malformed);
        }
        let limit: u8 = 65 - p;
        let mut zero: usize = 0;
        let mut sum: u128 = 0;
        let mut i: usize = 0;
        while i < m
            invariant
                i <= m,
                m == registers@.len(),
                m <= 65536,
                limit == 65 - p,
                4 <= p <= 16,
                forall|k: int| 0 <= k < i ==> registers@[k] <= limit,
                zero as nat == zero_count(registers@.take(i as int)),
                sum as nat == weight_sum(registers@.take(i as int)),
                zero <= i,
                sum <= i * 0x1_0000_0000_0000_0000,
            decreases m - i,
        {
            let v = registers[i];
            if v > limit {
                return Err(SketchError::Malformed);
            }
            proof {
                lemma_prefix_step(registers@, i as int);
                lemma_weight_le(v as int);
            }
            if v == 0 {
                zero = zero + 1;
            }
            sum = sum + weight_of(v);
            i = i + 1;
        }
        proof {
            assert(registers@.take(m as int) =~= registers@);
        }
        match &counters {
            Some(rows) => {
                if rows.len() != m {
                    proof {
                        assert(cv.unwrap().len() == rows@.len());
                    }
                    return Err(SketchError::Malformed);
                }
                let w: usize = 66 - p as usize;
                let mut k: usize = 0;
                while k < m
                    invariant
                        k <= m,
                        rows@.len() == m,
                        w == 66 - p,
                        cv == Some(rows@.map_values(|row: Vec<u8>| row@)),
                        cv == rows_view(counters),
                        counters == Some(*rows),
                        4 <= p <= 16,
                        m == registers@.len(),
                        m == pow2(p as nat),
                        forall|j: int| 0 <= j < m ==> registers@[j] <= limit,
                        zero as nat == zero_count(registers@),
                        sum as nat == weight_sum(registers@),
                        forall|j: int| 0 <= j < k ==> #[trigger] rows@[j]@.len() == w,
                    decreases m - k,
                {
                    if rows[k].len() != w {
                        proof {
                            assert(cv.unwrap()[k as int] == rows@[k as int]@);
                            assert(cv.unwrap()[k as int].len() != slots(p as nat));
                            assert(!Self::parts_valid(p, registers@, cv));
                        }
                        return Err(SketchError::Malformed);
                    }
                    k = k + 1;
                }
                proof {
                    let c = cv.unwrap();
                    assert forall|j: int| 0 <= j < c.len() implies #[trigger] c[j].len() == slots(
                        p as nat,
                    ) by {
                        assert(c[j] == rows@[j]@);
                    }
                }
            },
            None => {},
        }
        Ok(HyperLogLog { p, zero, sum, registers, counters })
    }
}

/// Whether two counter arrays hold the same values, row by row.
fn rows_equal(a: &Vec<Vec<u8>>, b: &Vec<Vec<u8>>) -> (r: bool)
    ensures
        r == (a@.map_values(|row: Vec<u8>| row@) == b@.map_values(|row: Vec<u8>| row@)),
{
    let ghost f = |row: Vec<u8>| row@;
    if a.len() != b.len() {
        proof {
            assert(a@.map_values(f).len() != b@.map_values(f).len());
        }
        return false;
    }
    let mut i: usize = 0;
    while i < a.len()
        invariant
            i <= a@.len(),
            a@.len() == b@.len(),
            f == |row: Vec<u8>| row@,
            forall|k: int| 0 <= k < i ==> #[trigger] a@[k]@ == b@[k]@,
        decreases a@.len() - i,
    {
        let x = &a[i];
        let y = &b[i];
        if x.len() != y.len() {
            proof {
                assert(a@.map_values(f)[i as int] != b@.map_values(f)[i as int]);
            }
            return false;
        }
        let mut j: usize = 0;
        while j < x.len()
            invariant
                j <= x@.len(),
                x@.len() == y@.len(),
                i < a@.len(),
                a@.len() == b@.len(),
                *x == a@[i as int],
                *y == b@[i as int],
                f == |row: Vec<u8>| row@,
                forall|k: int| 0 <= k < j ==> x@[k] == y@[k],
            decreases x@.len() - j,
        {
            if x[j] != y[j] {
                proof {
                    assert(x@ != y@);
                    assert(a@.map_values(f)[i as int] != b@.map_values(f)[i as int]);
                }
                return false;
            }
            j = j + 1;
        }
        proof {
            assert(x@ =~= y@);
        }
        i = i + 1;
    }
    proof {
        assert(a@.map_values(f) =~= b@.map_values(f)) by {
            assert forall|k: int| 0 <= k < a@.len() implies a@.map_values(f)[k] == b@.map_values(f)[k] by {
                assert(a@[k]@ == b@[k]@);
            }
        }
    }
    true
}

impl HyperLogLog {
    /// When two sketches count as equal: both keep counters, and they agree
    /// on precision, both caches (hence on the estimate) and every counter.
    pub open spec fn same_as(&self, other: &Self) -> bool {
        &&& self.counters_spec() is Some
        &&& other.counters_spec() is Some
        &&& self.precision_spec() == other.precision_spec()
        &&& self.zero_spec() == other.zero_spec()
        &&& self.sum_spec() == other.sum_spec()
        &&& self.counters_spec() == other.counters_spec()
    }
}

impl PartialEq for HyperLogLog {
    fn eq(&self, other: &Self) -> (r: bool)
        ensures
            r == self.same_as(other),
    {
        if self.p != other.p || self.zero != other.zero || self.sum != other.sum {
            return false;
        }
        match (&self.counters, &other.counters) {
            (Some(a), Some(b)) => rows_equal(a, b),
            _ => false,
        }
    }
}

impl vstd::std_specs::cmp::PartialEqSpecImpl for HyperLogLog {
    open spec fn obeys_eq_spec() -> bool {
        false
    }

    open spec fn eq_spec(&self, other: &HyperLogLog) -> bool {
        self.same_as(other)
    }
}


/// Merges one row of counters for a union: the highest slot where either
/// row is nonzero.
fn union_one_row(row: &mut Vec<u8>, from: &Vec<u8>)
    requires
        old(row)@.len() == from@.len(),
    ensures
        final(row)@.len() == old(row)@.len(),
        exists|d: u64| #[trigger] union_row(old(row)@, from@, d) == final(row)@,
{
    let ghost t = row@;
    let ghost f = from@;
    let w = row.len();
    let mut j: usize = w;
    while j > 0 && row[j - 1] == 0 && from[j - 1] == 0
        invariant
            j <= w,
            w == t.len(),
            w == f.len(),
            f == from@,
            row@ == t,
            last_either(t, f, w - 1) == last_either(t, f, j - 1),
        decreases j,
    {
        j = j - 1;
    }
    if j > 0 {
        let k = j - 1;
        let to = row[k];
        let fr = from[k];
        let d = if to as u32 + fr as u32 > PIVOT as u32 {
            random_u64()
        } else {
            0
        };
        row.set(k, merge_for_union(to, fr, d));
        assert(union_row(t, f, d) == row@);
    } else {
        assert(union_row(t, f, 0) == row@);
    }
}

/// Merges one row of counters for an intersection: the lowest slot where
/// either row is nonzero.
fn intersect_one_row(row: &mut Vec<u8>, from: &Vec<u8>)
    requires
        old(row)@.len() == from@.len(),
    ensures
        final(row)@.len() == old(row)@.len(),
        exists|d: u64| #[trigger] intersect_row(old(row)@, from@, d) == final(row)@,
{
    let ghost t = row@;
    let ghost f = from@;
    let w = row.len();
    let mut k: usize = 0;
    while k < w && row[k] == 0 && from[k] == 0
        invariant
            k <= w,
            w == t.len(),
            w == f.len(),
            f == from@,
            row@ == t,
            first_either(t, f, 0) == first_either(t, f, k as int),
        decreases w - k,
    {
        k = k + 1;
    }
    if k < w {
        let to = row[k];
        let fr = from[k];
        let d = if to as u32 + fr as u32 > PIVOT as u32 {
            random_u64()
        } else {
            0
        };
        row.set(k, merge_for_intersect(to, fr, d));
        assert(intersect_row(t, f, d) == row@);
    } else {
        assert(intersect_row(t, f, 0) == row@);
    }
}

/// Merges every row of `from` into the matching row of `rows`.
fn merge_rows(rows: &mut Vec<Vec<u8>>, from: &Vec<Vec<u8>>, for_union: bool) -> (draws: Ghost<
    Seq<u64>,
>)
    requires
        old(rows)@.len() == from@.len(),
        forall|i: int| 0 <= i < from@.len() ==> #[trigger] old(rows)@[i]@.len() == from@[i]@.len(),
    ensures
        final(rows)@.len() == old(rows)@.len(),
        forall|i: int|
            0 <= i < from@.len() ==> #[trigger] final(rows)@[i]@.len() == old(rows)@[i]@.len(),
        draws@.len() == from@.len(),
        for_union ==> forall|i: int|
            0 <= i < from@.len() ==> union_row(old(rows)@[i]@, from@[i]@, draws@[i])
                == #[trigger] final(rows)@[i]@,
        !for_union ==> forall|i: int|
            0 <= i < from@.len() ==> intersect_row(old(rows)@[i]@, from@[i]@, draws@[i])
                == #[trigger] final(rows)@[i]@,
{
    let ghost start = rows@;
    let ghost mut draws: Seq<u64> = Seq::empty();
    let n = rows.len();
    let mut i: usize = 0;
    while i < n
        invariant
            i <= n,
            n == start.len(),
            n == from@.len(),
            rows@.len() == n,
            draws.len() == i,
            forall|k: int| 0 <= k < n ==> #[trigger] start[k]@.len() == from@[k]@.len(),
            forall|k: int| i <= k < n ==> rows@[k] == start[k],
            forall|k: int| 0 <= k < i ==> #[trigger] rows@[k]@.len() == start[k]@.len(),
            for_union ==> forall|k: int|
                0 <= k < i ==> union_row(start[k]@, from@[k]@, draws[k]) == #[trigger] rows@[k]@,
            !for_union ==> forall|k: int|
                0 <= k < i ==> intersect_row(start[k]@, from@[k]@, draws[k]) == #[trigger] rows@[k]@,
        decreases n - i,
    {
        let mut row: Vec<u8> = Vec::new();
        let ghost before = rows@;
        assert(rows@[i as int] == start[i as int]);
        assert(start[i as int]@.len() == from@[i as int]@.len());
        rows.set_and_swap(i, &mut row);
        let ghost row_before = row@;
        if for_union {
            union_one_row(&mut row, &from[i]);
        } else {
            intersect_one_row(&mut row, &from[i]);
        }
        let ghost merged = row@;
        proof {
            let d = if for_union {
                choose|d: u64| union_row(row_before, from@[i as int]@, d) == merged
            } else {
                choose|d: u64| intersect_row(row_before, from@[i as int]@, d) == merged
            };
            draws = draws.push(d);
        }
        rows.set_and_swap(i, &mut row);
        proof {
            assert(rows@ == before.update(i as int, rows@[i as int]));
            assert(rows@[i as int]@ == merged);
            assert forall|k: int| 0 <= k < i implies rows@[k] == before[k] by {}
        }
        i = i + 1;
    }
    Ghost(draws)
}
} // verus!
