use vstd::prelude::*;

verus! {

use vstd::arithmetic::mul::lemma_mul_inequality;
use vstd::arithmetic::mul::lemma_mul_strict_inequality;
use vstd::arithmetic::power::lemma_pow_increases;
use vstd::arithmetic::power::lemma_pow_positive;
use vstd::arithmetic::power::pow;
use vstd::set_lib::lemma_int_range;
use vstd::set_lib::lemma_len_subset;
use vstd::set_lib::set_int_range;

// Termination of propagation rests on one fact: popping a cell off the work
// stack can only push cells with strictly larger indices, because a memo is
// always created after its inputs. Weighing an entry `e` of a store of `n`
// cells as `(n+1)^(n-e)` makes the total weight of the stack drop with every
// pop: at most `n` distinct larger entries are pushed, each weighing at most
// an `(n+1)`-th of the popped entry.

/// The weight of one pending stack entry `e` in a store of `n` cells.
pub open spec fn entry_weight(e: usize, n: nat) -> int {
    pow(n as int + 1, (n - e) as nat)
}

/// The termination measure of the propagation work stack.
pub open spec fn stack_measure(s: Seq<usize>, n: nat) -> int
    decreases s.len(),
{
    if s.len() == 0 {
        0
    } else {
        stack_measure(s.drop_last(), n) + entry_weight(s.last(), n)
    }
}

proof fn lemma_weight_positive(e: usize, n: nat)
    ensures
        entry_weight(e, n) >= 1,
{
    lemma_pow_positive(n as int + 1, (n - e) as nat);
}

pub proof fn lemma_measure_nonneg(s: Seq<usize>, n: nat)
    ensures
        stack_measure(s, n) >= 0,
    decreases s.len(),
{
    if s.len() > 0 {
        lemma_measure_nonneg(s.drop_last(), n);
        lemma_weight_positive(s.last(), n);
    }
}

pub proof fn lemma_measure_concat(a: Seq<usize>, b: Seq<usize>, n: nat)
    ensures
        stack_measure(a + b, n) == stack_measure(a, n) + stack_measure(b, n),
    decreases b.len(),
{
    if b.len() == 0 {
        assert(a + b =~= a);
    } else {
        lemma_measure_concat(a, b.drop_last(), n);
        assert((a + b).drop_last() =~= a + b.drop_last());
        assert((a + b).last() == b.last());
    }
}

/// A duplicate-free list of indices below `n` has at most `n` entries.
proof fn lemma_unique_below_len(s: Seq<usize>, n: nat)
    requires
        s.no_duplicates(),
        forall|k: int| 0 <= k < s.len() ==> (#[trigger] s[k] as nat) < n,
    ensures
        s.len() <= n,
{
    let si = s.map_values(|x: usize| x as int);
    assert forall|a: int, b: int| 0 <= a < si.len() && 0 <= b < si.len() && a != b implies si[a]
        != si[b] by {
        assert(s[a] != s[b]);
    }
    assert(si.no_duplicates());
    si.unique_seq_to_set();
    assert forall|x: int| si.to_set().contains(x) implies set_int_range(0, n as int).contains(
        x,
    ) by {
        let w = choose|w: int| 0 <= w < si.len() && si[w] == x;
        assert((s[w] as nat) < n);
    }
    lemma_int_range(0, n as int);
    lemma_len_subset(si.to_set(), set_int_range(0, n as int));
}

/// Each entry of `s` weighs at most `cap`, so the whole list weighs at most
/// `len * cap`.
proof fn lemma_measure_upper(s: Seq<usize>, n: nat, cap: int)
    requires
        forall|k: int| 0 <= k < s.len() ==> entry_weight(#[trigger] s[k], n) <= cap,
    ensures
        stack_measure(s, n) <= s.len() * cap,
    decreases s.len(),
{
    if s.len() == 0 {
    } else {
        lemma_measure_upper(s.drop_last(), n, cap);
        assert(entry_weight(s.last(), n) <= cap);
        assert((s.len() - 1) * cap + cap == s.len() * cap) by (nonlinear_arith);
    }
}

/// A duplicate-free list of entries strictly between `m` and `n` weighs
/// strictly less than `m` itself.
proof fn lemma_pushed_measure_lt(s: Seq<usize>, m: usize, n: nat)
    requires
        (m as nat) < n,
        s.no_duplicates(),
        forall|k: int|
            0 <= k < s.len() ==> (m as nat) < (#[trigger] s[k] as nat) && (s[k] as nat) < n,
    ensures
        stack_measure(s, n) < entry_weight(m, n),
{
    let b = n as int + 1;
    let cap = pow(b, (n - m - 1) as nat);
    assert forall|k: int| 0 <= k < s.len() implies entry_weight(#[trigger] s[k], n) <= cap by {
        lemma_pow_increases((n + 1) as nat, (n - s[k]) as nat, (n - m - 1) as nat);
    }
    lemma_measure_upper(s, n, cap);
    lemma_unique_below_len(s, n);
    lemma_pow_positive(b, (n - m - 1) as nat);
    lemma_mul_inequality(s.len() as int, n as int, cap);
    lemma_mul_strict_inequality(n as int, b, cap);
    let e = (n - m) as nat;
    assert(e >= 1);
    vstd::arithmetic::power::lemma_pow_adds(b, 1, (e - 1) as nat);
    vstd::arithmetic::power::lemma_pow1(b);
    assert(pow(b, e) == b * pow(b, (e - 1) as nat));
    assert((e - 1) as nat == (n - m - 1) as nat);
    assert(entry_weight(m, n) == b * cap);
}

/// The propagation step: popping the last entry off the stack and pushing a
/// duplicate-free batch of strictly larger entries shrinks the measure.
pub proof fn lemma_measure_after_pop(stack: Seq<usize>, pushed: Seq<usize>, n: nat)
    requires
        stack.len() > 0,
        (stack.last() as nat) < n,
        pushed.no_duplicates(),
        forall|k: int|
            0 <= k < pushed.len() ==> (stack.last() as nat) < (#[trigger] pushed[k] as nat) && (
            pushed[k] as nat) < n,
    ensures
        0 <= stack_measure(stack.drop_last() + pushed, n),
        stack_measure(stack.drop_last() + pushed, n) < stack_measure(stack, n),
{
    lemma_measure_concat(stack.drop_last(), pushed, n);
    lemma_pushed_measure_lt(pushed, stack.last(), n);
    lemma_measure_nonneg(stack.drop_last(), n);
    lemma_measure_nonneg(pushed, n);
}

} // verus!
