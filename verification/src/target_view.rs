//! The view whose leader is elected while another view runs.
use crate::rounding::lemma_quotient_unique;
use vstd::arithmetic::div_mod::lemma_fundamental_div_mod;
use vstd::prelude::*;

verus! {

/// `v / n`, rounded up, times `n`.
pub open spec fn round_up(v: nat, n: nat) -> nat
    recommends
        n > 0,
{
    ((v + n - 1) as nat) / n * n
}

/// The view for which view `v` elects a leader, with `n` voters and a window of `tz` views.
pub open spec fn target_view(v: nat, n: nat, tz: nat) -> nat
    recommends
        n > 0,
{
    if v + v / n % n <= round_up(v, n) {
        v + n + tz + v / n % n
    } else if v % n == 0 && v / n % n == 1 {
        v + n + tz
    } else {
        v + tz + ((v - 1) as nat) / n % n
    }
}

/// The block of `n` views that a view belongs to, counted from 0; view 1 starts block 0.
pub open spec fn block(v: nat, n: nat) -> nat
    recommends
        n > 0,
        v >= 1,
{
    ((v - 1) as nat) / n
}

/// The place of a view in its block, counted from 0.
pub open spec fn place(v: nat, n: nat) -> nat
    recommends
        n > 0,
        v >= 1,
{
    ((v - 1) as nat) % n
}

/// Whether a view ends a run of `n` blocks.
pub open spec fn ends_round(v: nat, n: nat) -> bool
    recommends
        n > 0,
{
    v % n == 0 && v / n % n == 0
}

proof fn lemma_block_parts(v: nat, n: nat)
    requires
        n > 0,
        v >= 1,
    ensures
        v == n * block(v, n) + place(v, n) + 1,
        place(v, n) < n,
        place(v, n) + 1 < n ==> v / n == block(v, n) && v % n == place(v, n) + 1,
        place(v, n) + 1 == n ==> v / n == block(v, n) + 1 && v % n == 0,
        round_up(v, n) == n * (block(v, n) + 1),
{
    let b = block(v, n);
    let i = place(v, n);
    lemma_fundamental_div_mod(v - 1, n as int);
    assert(n * (b + 1) == n * b + n && (b + 1) * n == n * b + n && b * n == n * b)
        by (nonlinear_arith);
    if i + 1 < n {
        lemma_quotient_unique(v, n, b, i + 1);
    } else {
        lemma_quotient_unique(v, n, b + 1, 0);
    }
    lemma_quotient_unique((v + n - 1) as nat, n, b + 1, i);
}

/// Going from one block to the next moves its number modulo `n` by one, around the end.
proof fn lemma_next_modulo(b: nat, n: nat)
    requires
        n > 0,
    ensures
        b % n + 1 < n ==> (b + 1) % n == b % n + 1,
        b % n + 1 == n ==> (b + 1) % n == 0,
{
    let q = b / n;
    lemma_fundamental_div_mod(b as int, n as int);
    assert((q + 1) * n == n * q + n && q * n == n * q) by (nonlinear_arith);
    if b % n + 1 < n {
        lemma_quotient_unique(b + 1, n, q, b % n + 1);
    } else {
        lemma_quotient_unique(b + 1, n, q + 1, 0);
    }
}

/// A view elects the leader of a view of the next block, the window further on: the view
/// at the same place, moved around the block by the number of the block. The exception is
/// the last view of a run of `n` blocks, which elects for the last place.
pub proof fn target_rotates_within_next_block(v: nat, n: nat, tz: nat)
    requires
        n > 0,
        v >= 1,
    ensures
        n == 1 || !ends_round(v, n) ==> target_view(v, n, tz) == tz + n * (block(v, n) + 1) + (
        place(v, n) + block(v, n)) % n + 1,
        ends_round(v, n) ==> target_view(v, n, tz) == tz + n * (block(v, n) + 1) + n,
{
    let b = block(v, n);
    let i = place(v, n);
    let k = b % n;
    lemma_block_parts(v, n);
    lemma_next_modulo(b, n);
    lemma_fundamental_div_mod(b as int, n as int);
    let q = b / n;
    assert(n * (b + 1) == n * b + n) by (nonlinear_arith);
    assert((q + 1) * n == n * q + n && q * n == n * q) by (nonlinear_arith);
    if i + k < n {
        lemma_quotient_unique(i + b, n, q, i + k);
    } else {
        lemma_quotient_unique(i + b, n, q + 1, (i + k - n) as nat);
    }
}

/// The view that a view elects for lies in the stretch of views about which the leader
/// list knows: after the window and less than two turns beyond it.
pub proof fn target_lies_in_stored_views(v: nat, n: nat, tz: nat)
    requires
        n > 0,
        v >= 1,
    ensures
        v + tz < target_view(v, n, tz) <= v + tz + 2 * n - 1,
{
    lemma_block_parts(v, n);
    target_rotates_within_next_block(v, n, tz);
    let b = block(v, n);
    assert(n * (b + 1) == n * b + n) by (nonlinear_arith);
    assert(0 <= (place(v, n) + b) % n < n);
}

/// Two views elect for different views, unless one of them is the last of a run of `n`
/// blocks.
pub proof fn targets_are_distinct(v1: nat, v2: nat, n: nat, tz: nat)
    requires
        n > 0,
        v1 >= 1,
        v2 >= 1,
        v1 != v2,
        n > 1 ==> !ends_round(v1, n) && !ends_round(v2, n),
    ensures
        target_view(v1, n, tz) != target_view(v2, n, tz),
{
    lemma_block_parts(v1, n);
    lemma_block_parts(v2, n);
    target_rotates_within_next_block(v1, n, tz);
    target_rotates_within_next_block(v2, n, tz);
    let (b1, b2) = (block(v1, n), block(v2, n));
    let (i1, i2) = (place(v1, n), place(v2, n));
    if b1 < b2 {
        assert(n * (b2 + 1) >= n * (b1 + 1) + n) by (nonlinear_arith)
            requires
                b2 >= b1 + 1,
        ;
    } else if b2 < b1 {
        assert(n * (b1 + 1) >= n * (b2 + 1) + n) by (nonlinear_arith)
            requires
                b1 >= b2 + 1,
        ;
    } else if (i1 + b1) % n == (i2 + b1) % n {
        lemma_fundamental_div_mod((i1 + b1) as int, n as int);
        lemma_fundamental_div_mod((i2 + b1) as int, n as int);
        let (q1, q2) = ((i1 + b1) / n, (i2 + b1) / n);
        assert(n * q1 - n * q2 == i1 - i2);
        assert(q1 == q2) by (nonlinear_arith)
            requires
                n * q1 - n * q2 == i1 - i2,
                -n < i1 - i2 < n,
                n > 0,
        ;
    }
}

/// Every view after the window and the first turn is elected for by a view of the block
/// before it, the window further back. Only the last place but one is left out in the
/// block after a run of `n` blocks, since the last view of the run elects for the last
/// place.
pub proof fn later_views_are_elected_for(t: nat, n: nat, tz: nat) -> (v: nat)
    requires
        n > 0,
        t >= tz + n + 1,
        n > 1 ==> !(block((t - tz) as nat, n) % n == 0 && place((t - tz) as nat, n) == n - 2),
    ensures
        v >= 1,
        block(v, n) + 1 == block((t - tz) as nat, n),
        target_view(v, n, tz) == t,
{
    let u = (t - tz) as nat;
    let p = place(u, n);
    lemma_block_parts(u, n);
    assert(block(u, n) >= 1) by (nonlinear_arith)
        requires
            u == n * block(u, n) + p + 1,
            p < n,
            u >= n + 1,
    ;
    let b = (block(u, n) - 1) as nat;
    let k = b % n;
    let i: nat = if p >= k {
        (p - k) as nat
    } else {
        (p + n - k) as nat
    };
    let v = n * b + i + 1;
    assert(b * n == n * b) by (nonlinear_arith);
    lemma_quotient_unique((v - 1) as nat, n, b, i);
    let q = b / n;
    lemma_fundamental_div_mod(b as int, n as int);
    assert((q + 1) * n == n * q + n && q * n == n * q) by (nonlinear_arith);
    if p >= k {
        lemma_quotient_unique(i + b, n, q, p);
    } else {
        lemma_quotient_unique(i + b, n, q + 1, p);
    }
    lemma_block_parts(v, n);
    lemma_next_modulo(b, n);
    target_rotates_within_next_block(v, n, tz);
    v
}

} // verus!
