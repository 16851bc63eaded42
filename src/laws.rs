//! Algebraic laws of the register merge.

use crate::counter::PIVOT;
use crate::model::{lemma_top_bounds, lemma_top_is, top};
use crate::sketch::{last_either, union_registers, union_row, HyperLogLog};
use vstd::prelude::*;

verus! {

/// Union is commutative on registers: `union(a, b)` and `union(b, a)` hold
/// the same registers.
pub proof fn lemma_union_commutative(a: Seq<u8>, b: Seq<u8>)
    requires
        a.len() == b.len(),
    ensures
        union_registers(a, b) == union_registers(b, a),
{
    assert(union_registers(a, b) =~= union_registers(b, a));
}

/// Union absorbs: merging a sketch's registers with themselves leaves them
/// unchanged.
pub proof fn lemma_union_absorbs(a: Seq<u8>)
    ensures
        union_registers(a, a) == a,
{
    assert(union_registers(a, a) =~= a);
}

/// Union is associative on registers.
pub proof fn lemma_union_associative(a: Seq<u8>, b: Seq<u8>, c: Seq<u8>)
    requires
        a.len() == b.len(),
        b.len() == c.len(),
    ensures
        union_registers(union_registers(a, b), c) == union_registers(a, union_registers(b, c)),
{
    assert(union_registers(union_registers(a, b), c) =~= union_registers(a, union_registers(b, c)));
}

/// Whether the union of rows `t` and `f` cannot lose its top counter: the
/// highest slot nonzero in either is nonzero in `t`, or the two together
/// stay at or below the pivot there, so the merge is exact.
pub open spec fn keeps_top(t: Seq<u8>, f: Seq<u8>) -> bool {
    let j = last_either(t, f, t.len() - 1);
    j < 0 || t[j] > 0 || t[j] + f[j] <= PIVOT
}

proof fn lemma_last_either_is(t: Seq<u8>, f: Seq<u8>, k: int, j: int)
    requires
        t.len() == f.len(),
        -1 <= j <= k < t.len(),
        j >= 0 ==> t[j] > 0 || f[j] > 0,
        forall|i: int| j < i <= k ==> t[i] == 0 && f[i] == 0,
    ensures
        last_either(t, f, k) == j,
    decreases k + 1,
{
    if k > j {
        lemma_last_either_is(t, f, k - 1, j);
    }
}

/// Union of two consistent rows: the merged row's top nonzero slot is the
/// higher of the two rows' tops, whenever the merge keeps its top counter.
pub proof fn lemma_union_row_top(t: Seq<u8>, f: Seq<u8>, d: u64)
    requires
        t.len() == f.len(),
        t.len() > 0,
        keeps_top(t, f),
    ensures
        top(union_row(t, f, d)) == if top(t) >= top(f) {
            top(t)
        } else {
            top(f)
        },
{
    lemma_top_bounds(t);
    lemma_top_bounds(f);
    let hi = if top(t) >= top(f) {
        top(t)
    } else {
        top(f)
    };
    let c = union_row(t, f, d);
    if hi > 0 {
        lemma_last_either_is(t, f, t.len() - 1, hi);
        lemma_top_is(c, hi);
    } else {
        if t[0] > 0 || f[0] > 0 {
            lemma_last_either_is(t, f, t.len() - 1, 0);
        } else {
            lemma_last_either_is(t, f, t.len() - 1, -1);
        }
        lemma_top_is(c, 0);
    }
}

/// A cleared sketch cannot be told from a freshly constructed one: any two
/// fresh sketches of one precision and counter choice agree on precision,
/// registers, both caches and counters.
pub proof fn lemma_fresh_indistinguishable(
    a: HyperLogLog,
    b: HyperLogLog,
    p: nat,
    with_counters: bool,
)
    requires
        a.is_fresh(p, with_counters),
        b.is_fresh(p, with_counters),
    ensures
        a.precision_spec() == b.precision_spec(),
        a.registers_spec() == b.registers_spec(),
        a.zero_spec() == b.zero_spec(),
        a.sum_spec() == b.sum_spec(),
        a.counters_spec() == b.counters_spec(),
{
}

} // verus!
