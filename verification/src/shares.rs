//! Sums of numbers, and the shares that numbers have in a total.
//!
//! A share is counted in parts of `PRECISION` and rounded down, so the
//! shares of all parts may add up to less than the whole, never to more.

use crate::credibility::PRECISION;
use vstd::prelude::*;

verus! {

/// The sum of a sequence of numbers.
pub open spec fn seq_sum(values: Seq<nat>) -> nat
    decreases values.len(),
{
    if values.len() == 0 {
        0
    } else {
        seq_sum(values.drop_last()) + values.last()
    }
}

/// The share of `total` that `sum` makes, in parts of `PRECISION`, rounded
/// down; zero where there is nothing to share.
pub open spec fn weight_fraction(sum: nat, total: nat) -> nat {
    if total == 0 {
        0
    } else {
        PRECISION as nat * sum / total
    }
}

/// Changing one number changes the sum by as much.
pub proof fn lemma_seq_sum_update(values: Seq<nat>, i: int, value: nat)
    requires
        0 <= i < values.len(),
    ensures
        seq_sum(values.update(i, value)) + values[i] == seq_sum(values) + value,
    decreases values.len(),
{
    let changed = values.update(i, value);
    if i == values.len() - 1 {
        assert(changed.drop_last() =~= values.drop_last());
    } else {
        lemma_seq_sum_update(values.drop_last(), i, value);
        assert(changed.drop_last() =~= values.drop_last().update(i, value));
    }
}

/// A number that enters a sequence adds itself to the sum, wherever it
/// enters.
pub proof fn lemma_seq_sum_insert(values: Seq<nat>, i: int, value: nat)
    requires
        0 <= i <= values.len(),
    ensures
        seq_sum(values.insert(i, value)) == seq_sum(values) + value,
    decreases values.len(),
{
    let more = values.insert(i, value);
    if i == values.len() {
        assert(more.drop_last() =~= values);
    } else {
        lemma_seq_sum_insert(values.drop_last(), i, value);
        assert(more.drop_last() =~= values.drop_last().insert(i, value));
        assert(more.last() == values.last());
    }
}

/// No number is larger than the sum.
pub proof fn lemma_seq_sum_bounds(values: Seq<nat>, i: int)
    requires
        0 <= i < values.len(),
    ensures
        values[i] <= seq_sum(values),
    decreases values.len(),
{
    if i < values.len() - 1 {
        lemma_seq_sum_bounds(values.drop_last(), i);
    }
}

/// The share of each of `sums` in `total`, position by position.
pub open spec fn shares_in(sums: Seq<nat>, total: nat) -> Seq<nat> {
    Seq::new(sums.len(), |g: int| weight_fraction(sums[g], total))
}

/// Whether each of `sums` makes a whole number of parts of `total`.
pub open spec fn divides_evenly(sums: Seq<nat>, total: nat) -> bool {
    forall|g: int| 0 <= g < sums.len() ==> (PRECISION as nat * #[trigger] sums[g]) % total == 0
}

/// Rounding down never gives out more than there is: the shares of `sums`
/// in `total`, times `total`, stay within `PRECISION` times the sum; and
/// they reach it where nothing is rounded.
pub proof fn lemma_shares_in_total(sums: Seq<nat>, total: nat)
    requires
        total > 0,
    ensures
        seq_sum(shares_in(sums, total)) * total <= PRECISION * seq_sum(sums),
        divides_evenly(sums, total) ==> seq_sum(shares_in(sums, total)) * total == PRECISION
            * seq_sum(sums),
    decreases sums.len(),
{
    if sums.len() == 0 {
        assert(seq_sum(shares_in(sums, total)) == 0);
        assert(seq_sum(sums) == 0);
        assert(0 * total == 0) by (nonlinear_arith);
    } else {
        let rest = sums.drop_last();
        let last = sums.last();
        lemma_shares_in_total(rest, total);
        assert(shares_in(sums, total).drop_last() =~= shares_in(rest, total));
        let share = shares_in(sums, total).last();
        assert(share == 10000 * last / total);
        let before = seq_sum(shares_in(rest, total));
        let given = seq_sum(shares_in(sums, total));
        assert(given == before + share);
        assert(seq_sum(sums) == seq_sum(rest) + last);
        assert(given * total == before * total + share * total) by (nonlinear_arith)
            requires
                given == before + share,
        ;
        assert(share * total <= 10000 * last && ((10000 * last) % total == 0 ==> share * total
            == 10000 * last)) by (nonlinear_arith)
            requires
                total > 0,
                share == 10000 * last / total,
        ;
        if divides_evenly(sums, total) {
            assert((10000 * sums[sums.len() - 1]) % total == 0);
            assert forall|g: int| 0 <= g < rest.len() implies (PRECISION as nat
                * #[trigger] rest[g]) % total == 0 by {
                assert(rest[g] == sums[g]);
            }
            assert(divides_evenly(rest, total));
        }
    }
}

/// Where there is nothing to share, all shares are zero.
pub proof fn lemma_no_shares_of_nothing(sums: Seq<nat>)
    ensures
        seq_sum(shares_in(sums, 0)) == 0,
    decreases sums.len(),
{
    if sums.len() > 0 {
        lemma_no_shares_of_nothing(sums.drop_last());
        assert(shares_in(sums, 0).drop_last() =~= shares_in(sums.drop_last(), 0));
    }
}

/// A share is never more than the whole.
pub proof fn lemma_weight_fraction_bounds(sum: nat, total: nat)
    requires
        sum <= total,
    ensures
        weight_fraction(sum, total) <= PRECISION,
{
    if total > 0 {
        assert(10000 * sum / total <= 10000) by (nonlinear_arith)
            requires
                sum <= total,
                total > 0,
        ;
    }
}

/// The shares of numbers in their own sum never add up to more than
/// `PRECISION`; they add up to exactly that where each number makes a
/// whole number of parts of the sum, and to nothing where the sum is zero.
pub proof fn lemma_shares_conserved(sums: Seq<nat>)
    ensures
        seq_sum(shares_in(sums, seq_sum(sums))) <= PRECISION,
        seq_sum(sums) > 0 && divides_evenly(sums, seq_sum(sums)) ==> seq_sum(
            shares_in(sums, seq_sum(sums)),
        ) == PRECISION,
        seq_sum(sums) == 0 ==> seq_sum(shares_in(sums, seq_sum(sums))) == 0,
{
    let total = seq_sum(sums);
    let given = seq_sum(shares_in(sums, total));
    if total > 0 {
        lemma_shares_in_total(sums, total);
        assert(given <= 10000) by (nonlinear_arith)
            requires
                given * total <= 10000 * total,
                total > 0,
        ;
        if divides_evenly(sums, total) {
            assert(given == 10000) by (nonlinear_arith)
                requires
                    given * total == 10000 * total,
                    total > 0,
            ;
        }
    } else {
        lemma_no_shares_of_nothing(sums);
    }
}

} // verus!
