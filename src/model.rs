//! The mathematical model behind the table: sums of weights, residual mass in
//! the worklists, and the share of each item over the emitted slots.
use vstd::prelude::*;

verus! {

/// Sum of the weights of `ws`.
pub open spec fn sum_weights(ws: Seq<u64>) -> int
    decreases ws.len(),
{
    if ws.len() == 0 {
        0
    } else {
        sum_weights(ws.drop_last()) + ws.last()
    }
}

/// `a` and `b` share no divisor above one: a fraction `a / b` in lowest terms.
pub open spec fn coprime(a: int, b: int) -> bool {
    forall|d: int| d > 1 ==> !(#[trigger] (a % d) == 0 && b % d == 0)
}

/// Total scaled mass held by the entries of a worklist.
pub open spec fn total_mass(ws: Seq<(u128, usize)>) -> int
    decreases ws.len(),
{
    if ws.len() == 0 {
        0
    } else {
        total_mass(ws.drop_last()) + ws.last().0
    }
}

/// Scaled mass that the entries of a worklist hold for item `j`.
pub open spec fn mass_of(ws: Seq<(u128, usize)>, j: int) -> int
    decreases ws.len(),
{
    if ws.len() == 0 {
        0
    } else {
        mass_of(ws.drop_last(), j) + if ws.last().1 == j {
            ws.last().0 as int
        } else {
            0
        }
    }
}

/// Share of item `j` over the slots of `plan`. Each slot is a triple of its
/// threshold (out of `total`), the item it stays on and the item it falls
/// through to; the item stayed on gets the threshold, the alias the rest.
pub open spec fn share(plan: Seq<(int, int, int)>, total: int, j: int) -> int
    decreases plan.len(),
{
    if plan.len() == 0 {
        0
    } else {
        share(plan.drop_last(), total, j) + (if plan.last().1 == j {
            plan.last().0
        } else {
            0
        }) + (if plan.last().2 == j {
            total - plan.last().0
        } else {
            0
        })
    }
}

/// Adding a weight adds it to the sum.
pub proof fn lemma_sum_weights_push(ws: Seq<u64>, w: u64)
    ensures
        sum_weights(ws.push(w)) == sum_weights(ws) + w,
{
    assert(ws.push(w).drop_last() =~= ws);
}

/// A prefix never weighs more than the whole.
pub proof fn lemma_sum_weights_prefix(ws: Seq<u64>, i: int)
    requires
        0 <= i <= ws.len(),
    ensures
        sum_weights(ws.take(i)) <= sum_weights(ws),
    decreases ws.len(),
{
    if i < ws.len() {
        assert(ws.drop_last().take(i) =~= ws.take(i));
        lemma_sum_weights_prefix(ws.drop_last(), i);
    } else {
        assert(ws.take(i) =~= ws);
    }
}

/// Pushing an entry onto a worklist adds its mass to the total and to its item.
pub proof fn lemma_push_mass(ws: Seq<(u128, usize)>, e: (u128, usize), j: int)
    ensures
        total_mass(ws.push(e)) == total_mass(ws) + e.0,
        mass_of(ws.push(e), j) == mass_of(ws, j) + if e.1 == j {
            e.0 as int
        } else {
            0
        },
{
    assert(ws.push(e).drop_last() =~= ws);
}

/// Emitting a slot adds its threshold to the item it stays on and the
/// rest of the total to its alias.
pub proof fn lemma_push_share(plan: Seq<(int, int, int)>, total: int, s: (int, int, int), j: int)
    ensures
        share(plan.push(s), total, j) == share(plan, total, j) + (if s.1 == j {
            s.0
        } else {
            0
        }) + (if s.2 == j {
            total - s.0
        } else {
            0
        }),
{
    assert(plan.push(s).drop_last() =~= plan);
}

/// Entries that each hold at least `s` hold at least `len * s` together.
pub proof fn lemma_mass_lower(ws: Seq<(u128, usize)>, s: int)
    requires
        s >= 0,
        forall|k: int| 0 <= k < ws.len() ==> ws[k].0 >= s,
    ensures
        total_mass(ws) >= ws.len() * s,
    decreases ws.len(),
{
    if ws.len() > 0 {
        lemma_mass_lower(ws.drop_last(), s);
        let n = ws.len() as int;
        assert((n - 1) * s + s == n * s) by (nonlinear_arith);
    }
}

/// Entries that each hold less than `s` hold less than `len * s` together.
pub proof fn lemma_mass_upper(ws: Seq<(u128, usize)>, s: int)
    requires
        ws.len() > 0,
        forall|k: int| 0 <= k < ws.len() ==> ws[k].0 < s,
    ensures
        total_mass(ws) < ws.len() * s,
    decreases ws.len(),
{
    let n = ws.len() as int;
    assert(ws.last() == ws[n - 1]);
    if n == 1 {
        assert(total_mass(ws.drop_last()) == 0);
    } else {
        assert(forall|k: int| 0 <= k < n - 1 ==> ws.drop_last()[k] == ws[k]);
        lemma_mass_upper(ws.drop_last(), s);
        assert((n - 1) * s + s == n * s) by (nonlinear_arith);
    }
}

} // verus!
