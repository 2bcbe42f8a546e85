//! Drawing validators by lot.
//!
//! A draw takes validators out of a pool one by one, each by one number that
//! the caller brings from a source of chance. In a weighted draw a validator
//! is hit the more likely the larger its score is; in a plain draw all are
//! alike. A validator that was drawn has left the pool, so nobody is drawn
//! twice. The draw ends when the places are filled, the pool is empty or the
//! numbers are used up.

use crate::credibility::{NodeCredibility, NodeCredibilityView};
use crate::identity::{holds_key, PublicKey};
use crate::selector::scores;
use crate::shares::seq_sum;
use crate::store::{holds, keys_distinct};
use vstd::prelude::*;

verus! {

/// Whether `target` falls on position `i`, where every position takes as
/// much room as its weight and the positions follow each other from zero.
pub open spec fn lands_on(weights: Seq<nat>, target: nat, i: int) -> bool {
    &&& 0 <= i < weights.len()
    &&& seq_sum(weights.take(i)) <= target < seq_sum(weights.take(i + 1))
}

/// The position that `target` falls on.
pub open spec fn landing(weights: Seq<nat>, target: nat) -> int {
    choose|i: int| lands_on(weights, target, i)
}

/// The position in `pool` that `number` draws.
pub open spec fn drawn_position(pool: Seq<NodeCredibilityView>, weighted: bool, number: u64) -> int
    recommends
        pool.len() > 0,
{
    let total = seq_sum(scores(pool));
    if weighted && total > 0 {
        landing(scores(pool), number as nat % total)
    } else {
        number as int % pool.len() as int
    }
}

/// The validators that `numbers` draw from `pool` for `count` places, in the
/// order in which they are drawn.
pub open spec fn drawn(
    pool: Seq<NodeCredibilityView>,
    weighted: bool,
    numbers: Seq<u64>,
    count: nat,
) -> Seq<Seq<u8>>
    decreases count,
{
    if count == 0 || pool.len() == 0 || numbers.len() == 0 {
        Seq::empty()
    } else {
        let at = drawn_position(pool, weighted, numbers[0]);
        seq![pool[at].validator] + drawn(
            pool.remove(at),
            weighted,
            numbers.skip(1),
            (count - 1) as nat,
        )
    }
}

/// The entries of `entries` whose validators are not among `taken`, in their
/// order.
pub open spec fn without_keys(entries: Seq<NodeCredibilityView>, taken: Seq<Seq<u8>>) -> Seq<
    NodeCredibilityView,
>
    decreases entries.len(),
{
    if entries.len() == 0 {
        Seq::empty()
    } else {
        let rest = without_keys(entries.drop_last(), taken);
        if taken.contains(entries.last().validator) {
            rest
        } else {
            rest.push(entries.last())
        }
    }
}

/// The roster that `numbers` draw: `by_credibility` places go to validators
/// of `trustworthy` in a weighted draw, then `at_random` places to
/// validators of `population` that were not drawn yet, in a plain draw with
/// the numbers that are left.
pub open spec fn roster(
    trustworthy: Seq<NodeCredibilityView>,
    population: Seq<NodeCredibilityView>,
    by_credibility: nat,
    at_random: nat,
    numbers: Seq<u64>,
) -> Seq<Seq<u8>> {
    let first = drawn(trustworthy, true, numbers, by_credibility);
    first + drawn(
        without_keys(population, first),
        false,
        numbers.skip(first.len() as int),
        at_random,
    )
}

/// The room before a position grows with the position.
pub proof fn lemma_room_grows(weights: Seq<nat>, i: int, j: int)
    requires
        0 <= i <= j <= weights.len(),
    ensures
        seq_sum(weights.take(i)) <= seq_sum(weights.take(j)),
    decreases j - i,
{
    if i < j {
        lemma_room_grows(weights, i, j - 1);
        assert(weights.take(j).drop_last() =~= weights.take(j - 1));
    }
}

/// A target falls on one position only.
pub proof fn lemma_landing_unique(weights: Seq<nat>, target: nat, i: int)
    requires
        lands_on(weights, target, i),
    ensures
        landing(weights, target) == i,
{
    let j = landing(weights, target);
    assert(lands_on(weights, target, j));
    if i < j {
        lemma_room_grows(weights, i + 1, j);
    }
    if j < i {
        lemma_room_grows(weights, j + 1, i);
    }
}

/// The position that `number` draws in `pool`.
fn draw_position(pool: &Vec<NodeCredibility>, weighted: bool, number: u64) -> (at: usize)
    requires
        pool.len() > 0,
    ensures
        at == drawn_position(pool.deep_view(), weighted, number),
        at < pool.len(),
{
    let ghost weights = scores(pool.deep_view());
    let mut total: u128 = 0;
    let mut i: usize = 0;
    assert(weights.take(0) =~= Seq::<nat>::empty());
    while i < pool.len()
        invariant
            i <= pool.len(),
            weights == scores(pool.deep_view()),
            total == seq_sum(weights.take(i as int)),
            total <= i * u32::MAX,
        decreases pool.len() - i,
    {
        assert(weights.take(i + 1).drop_last() =~= weights.take(i as int));
        total = total + pool[i].credibility_value as u128;
        i = i + 1;
    }
    assert(weights.take(pool.len() as int) =~= weights);
    if weighted && total > 0 {
        let target: u128 = number as u128 % total;
        let mut room: u128 = 0;
        let mut at: usize = 0;
        assert(weights.take(0) =~= Seq::<nat>::empty());
        while room + pool[at].credibility_value as u128 <= target
            invariant
                at < pool.len(),
                weights == scores(pool.deep_view()),
                room == seq_sum(weights.take(at as int)),
                room <= target < total,
                total == seq_sum(weights),
                total <= pool.len() * u32::MAX,
            decreases pool.len() - at,
        {
            proof {
                assert(weights.take(at + 1).drop_last() =~= weights.take(at as int));
                if at + 1 == pool.len() {
                    assert(weights.take(at + 1) =~= weights);
                }
            }
            room = room + pool[at].credibility_value as u128;
            at = at + 1;
        }
        proof {
            assert(weights.take(at + 1).drop_last() =~= weights.take(at as int));
            lemma_landing_unique(weights, target as nat, at as int);
        }
        at
    } else {
        (number % pool.len() as u64) as usize
    }
}

/// Draws validators from `pool` for `count` places with the numbers of
/// `numbers` from position `from` on.
pub fn draw(
    pool: Vec<NodeCredibility>,
    weighted: bool,
    numbers: &Vec<u64>,
    from: usize,
    count: u64,
) -> (chosen: Vec<PublicKey>)
    requires
        from <= numbers.len(),
    ensures
        chosen.deep_view() == drawn(pool.deep_view(), weighted, numbers@.skip(from as int), count as nat),
{
    let ghost goal = drawn(pool.deep_view(), weighted, numbers@.skip(from as int), count as nat);
    let mut pool = pool;
    let mut chosen: Vec<PublicKey> = Vec::new();
    let mut next: usize = from;
    let mut left: u64 = count;
    assert(chosen.deep_view() =~= Seq::<Seq<u8>>::empty());
    assert(Seq::<Seq<u8>>::empty() + goal =~= goal);
    while left > 0 && pool.len() > 0 && next < numbers.len()
        invariant
            next <= numbers.len(),
            chosen.deep_view() + drawn(
                pool.deep_view(),
                weighted,
                numbers@.skip(next as int),
                left as nat,
            ) == goal,
        decreases left,
    {
        let ghost before = pool.deep_view();
        let ghost picked = chosen.deep_view();
        let ghost rest = numbers@.skip(next as int);
        let at = draw_position(&pool, weighted, numbers[next]);
        let entry = pool.remove(at);
        chosen.push(entry.validator);
        proof {
            assert(rest[0] == numbers[next as int]);
            assert(rest.skip(1) =~= numbers@.skip(next + 1));
            assert(pool.deep_view() =~= before.remove(at as int));
            assert(chosen.deep_view() =~= picked.push(before[at as int].validator));
            let later = drawn(pool.deep_view(), weighted, numbers@.skip(next + 1), (left - 1) as nat);
            assert(drawn(before, weighted, rest, left as nat) == seq![before[at as int].validator]
                + later);
            assert(picked.push(before[at as int].validator) + later =~= picked + (
            seq![before[at as int].validator] + later));
        }
        next = next + 1;
        left = left - 1;
    }
    proof {
        let last = drawn(pool.deep_view(), weighted, numbers@.skip(next as int), left as nat);
        assert(last =~= Seq::<Seq<u8>>::empty());
        assert(chosen.deep_view() + last =~= chosen.deep_view());
    }
    chosen
}

/// The entries of `entries` whose validators are not among `taken`.
pub fn remaining(entries: &Vec<NodeCredibility>, taken: &Vec<PublicKey>) -> (left: Vec<
    NodeCredibility,
>)
    ensures
        left.deep_view() == without_keys(entries.deep_view(), taken.deep_view()),
{
    let mut left: Vec<NodeCredibility> = Vec::new();
    let mut i: usize = 0;
    assert(entries.deep_view().take(0) =~= Seq::<NodeCredibilityView>::empty());
    assert(left.deep_view() =~= Seq::<NodeCredibilityView>::empty());
    while i < entries.len()
        invariant
            i <= entries.len(),
            left.deep_view() == without_keys(
                entries.deep_view().take(i as int),
                taken.deep_view(),
            ),
        decreases entries.len() - i,
    {
        let ghost before = left.deep_view();
        proof {
            let upto = entries.deep_view().take(i + 1);
            assert(upto.drop_last() =~= entries.deep_view().take(i as int));
            assert(upto.last() == entries[i as int]@);
        }
        if !holds_key(taken, &entries[i].validator) {
            left.push(entries[i].clone());
            assert(left.deep_view() =~= before.push(entries[i as int]@));
        }
        i = i + 1;
    }
    assert(entries.deep_view().take(entries.len() as int) =~= entries.deep_view());
    left
}

/// A draw gives no more validators than there are places, validators in
/// the pool, or numbers.
pub proof fn lemma_drawn_len(
    pool: Seq<NodeCredibilityView>,
    weighted: bool,
    numbers: Seq<u64>,
    count: nat,
)
    ensures
        drawn(pool, weighted, numbers, count).len() <= count,
        drawn(pool, weighted, numbers, count).len() <= pool.len(),
        drawn(pool, weighted, numbers, count).len() <= numbers.len(),
        drawn(pool, weighted, numbers, count).len() == count || drawn(
            pool,
            weighted,
            numbers,
            count,
        ).len() == pool.len() || drawn(pool, weighted, numbers, count).len() == numbers.len(),
    decreases count,
{
    if !(count == 0 || pool.len() == 0 || numbers.len() == 0) {
        let at = drawn_position(pool, weighted, numbers[0]);
        lemma_drawn_position_in_pool(pool, weighted, numbers[0]);
        lemma_drawn_len(pool.remove(at), weighted, numbers.skip(1), (count - 1) as nat);
    }
}

/// Every target below the sum of the weights falls on a position.
pub proof fn lemma_landing_exists(weights: Seq<nat>, target: nat)
    requires
        target < seq_sum(weights),
    ensures
        lands_on(weights, target, landing(weights, target)),
    decreases weights.len(),
{
    let rest = weights.drop_last();
    assert(weights.take(weights.len() as int) =~= weights);
    assert(weights.take(weights.len() - 1) =~= rest);
    if target < seq_sum(rest) {
        lemma_landing_exists(rest, target);
        let i = landing(rest, target);
        assert(rest.take(i) =~= weights.take(i));
        assert(rest.take(i + 1) =~= weights.take(i + 1));
        assert(lands_on(weights, target, i));
    } else {
        assert(lands_on(weights, target, weights.len() - 1));
    }
}

/// A number draws a position of the pool.
pub proof fn lemma_drawn_position_in_pool(
    pool: Seq<NodeCredibilityView>,
    weighted: bool,
    number: u64,
)
    requires
        pool.len() > 0,
    ensures
        0 <= drawn_position(pool, weighted, number) < pool.len(),
{
    let total = seq_sum(scores(pool));
    if weighted && total > 0 {
        assert(number as nat % total < total) by (nonlinear_arith)
            requires
                total > 0,
        ;
        lemma_landing_exists(scores(pool), number as nat % total);
    }
}

/// Taking one validator out of a pool leaves the others, each once.
pub proof fn lemma_remove_from_pool(pool: Seq<NodeCredibilityView>, at: int)
    requires
        keys_distinct(pool),
        0 <= at < pool.len(),
    ensures
        keys_distinct(pool.remove(at)),
        !holds(pool.remove(at), pool[at].validator),
        forall|key: Seq<u8>| #[trigger] holds(pool.remove(at), key) ==> holds(pool, key),
        forall|key: Seq<u8>|
            holds(pool, key) && key != pool[at].validator ==> #[trigger] holds(
                pool.remove(at),
                key,
            ),
{
    let rest = pool.remove(at);
    assert forall|i: int| 0 <= i < rest.len() implies #[trigger] rest[i] == pool[if i < at {
        i
    } else {
        i + 1
    }] by {
    }
    assert forall|i: int, j: int| 0 <= i < j < rest.len() implies (#[trigger] rest[i]).validator
        != (#[trigger] rest[j]).validator by {
        let from_i = if i < at {
            i
        } else {
            i + 1
        };
        let from_j = if j < at {
            j
        } else {
            j + 1
        };
        assert(pool[from_i].validator != pool[from_j].validator);
    }
    if holds(rest, pool[at].validator) {
        let i = choose|i: int| 0 <= i < rest.len() && (#[trigger] rest[i]).validator
            == pool[at].validator;
        let from = if i < at {
            i
        } else {
            i + 1
        };
        assert(rest[i] == pool[from]);
        if from < at {
            assert(pool[from].validator != pool[at].validator);
        } else {
            assert(pool[at].validator != pool[from].validator);
        }
    }
    assert forall|key: Seq<u8>| #[trigger] holds(rest, key) implies holds(pool, key) by {
        let i = choose|i: int| 0 <= i < rest.len() && (#[trigger] rest[i]).validator == key;
        let from = if i < at {
            i
        } else {
            i + 1
        };
        assert(pool[from].validator == key);
    }
    assert forall|key: Seq<u8>| holds(pool, key) && key != pool[at].validator implies #[trigger] holds(
        rest,
        key,
    ) by {
        let i = choose|i: int| 0 <= i < pool.len() && (#[trigger] pool[i]).validator == key;
        let to = if i < at {
            i
        } else {
            i - 1
        };
        assert(rest[to].validator == key);
    }
}

/// Nobody is drawn twice, and whoever is drawn was in the pool.
pub proof fn lemma_drawn_from_pool(
    pool: Seq<NodeCredibilityView>,
    weighted: bool,
    numbers: Seq<u64>,
    count: nat,
)
    requires
        keys_distinct(pool),
    ensures
        drawn(pool, weighted, numbers, count).no_duplicates(),
        forall|i: int|
            0 <= i < drawn(pool, weighted, numbers, count).len() ==> holds(
                pool,
                #[trigger] drawn(pool, weighted, numbers, count)[i],
            ),
    decreases count,
{
    let all = drawn(pool, weighted, numbers, count);
    if !(count == 0 || pool.len() == 0 || numbers.len() == 0) {
        let at = drawn_position(pool, weighted, numbers[0]);
        lemma_drawn_position_in_pool(pool, weighted, numbers[0]);
        lemma_remove_from_pool(pool, at);
        let later = drawn(pool.remove(at), weighted, numbers.skip(1), (count - 1) as nat);
        lemma_drawn_from_pool(pool.remove(at), weighted, numbers.skip(1), (count - 1) as nat);
        assert(all == seq![pool[at].validator] + later);
        assert forall|i: int| 0 <= i < all.len() implies holds(pool, #[trigger] all[i]) by {
            if i > 0 {
                assert(all[i] == later[i - 1]);
                assert(holds(pool.remove(at), later[i - 1]));
            }
        }
        assert forall|i: int, j: int| 0 <= i < j < all.len() implies all[i] != all[j] by {
            assert(all[j] == later[j - 1]);
            assert(holds(pool.remove(at), later[j - 1]));
            if i > 0 {
                assert(all[i] == later[i - 1]);
            }
        }
    }
}

/// Leaving validators out keeps the order of the others in order, and
/// leaves out exactly those.
pub proof fn lemma_without_keys(entries: Seq<NodeCredibilityView>, taken: Seq<Seq<u8>>)
    requires
        keys_distinct(entries),
    ensures
        keys_distinct(without_keys(entries, taken)),
        forall|key: Seq<u8>| #[trigger]
            holds(without_keys(entries, taken), key) <==> holds(entries, key) && !taken.contains(
                key,
            ),
    decreases entries.len(),
{
    let left = without_keys(entries, taken);
    if entries.len() > 0 {
        let rest = entries.drop_last();
        let last = entries.last();
        assert forall|i: int, j: int| 0 <= i < j < rest.len() implies (#[trigger] rest[i]).validator
            != (#[trigger] rest[j]).validator by {
            assert(entries[i].validator != entries[j].validator);
        }
        lemma_without_keys(rest, taken);
        let before = without_keys(rest, taken);
        assert(!holds(rest, last.validator)) by {
            if holds(rest, last.validator) {
                let i = choose|i: int| 0 <= i < rest.len() && (#[trigger] rest[i]).validator
                    == last.validator;
                assert(entries[i].validator != entries[entries.len() - 1].validator);
            }
        }
        assert forall|key: Seq<u8>| #[trigger]
            holds(left, key) <==> holds(entries, key) && !taken.contains(key) by {
            if holds(left, key) {
                let i = choose|i: int| 0 <= i < left.len() && (#[trigger] left[i]).validator
                    == key;
                if i < before.len() {
                    assert(before[i].validator == key);
                    assert(holds(before, key));
                    let k = choose|k: int| 0 <= k < rest.len() && (#[trigger] rest[k]).validator
                        == key;
                    assert(entries[k].validator == key);
                } else {
                    assert(entries[entries.len() - 1].validator == key);
                }
            }
            if holds(entries, key) && !taken.contains(key) {
                let k = choose|k: int| 0 <= k < entries.len() && (#[trigger] entries[k]).validator
                    == key;
                if k < rest.len() {
                    assert(rest[k].validator == key);
                    assert(holds(before, key));
                    let i = choose|i: int| 0 <= i < before.len() && (
                    #[trigger] before[i]).validator == key;
                    assert(left[i].validator == key);
                } else {
                    assert(left[before.len() as int].validator == key);
                }
            }
        }
        assert forall|i: int, j: int| 0 <= i < j < left.len() implies (#[trigger] left[i]).validator
            != (#[trigger] left[j]).validator by {
            if j < before.len() {
                assert(before[i].validator != before[j].validator);
            } else {
                assert(left[i] == before[i]);
                assert(holds(before, before[i].validator));
            }
        }
    }
}

/// One validator more to leave out takes at most one entry more away.
proof fn lemma_one_more_left_out(
    entries: Seq<NodeCredibilityView>,
    taken: Seq<Seq<u8>>,
    key: Seq<u8>,
)
    requires
        keys_distinct(entries),
    ensures
        without_keys(entries, taken.push(key)).len() + 1 >= without_keys(entries, taken).len(),
        !holds(entries, key) ==> without_keys(entries, taken.push(key)) == without_keys(
            entries,
            taken,
        ),
    decreases entries.len(),
{
    if entries.len() > 0 {
        let rest = entries.drop_last();
        let last = entries.last();
        assert forall|i: int, j: int| 0 <= i < j < rest.len() implies (#[trigger] rest[i]).validator
            != (#[trigger] rest[j]).validator by {
            assert(entries[i].validator != entries[j].validator);
        }
        lemma_one_more_left_out(rest, taken, key);
        assert(taken.push(key).contains(last.validator) <==> taken.contains(last.validator)
            || last.validator == key) by {
            if taken.contains(last.validator) {
                let i = choose|i: int| 0 <= i < taken.len() && taken[i] == last.validator;
                assert(taken.push(key)[i] == last.validator);
            }
            if last.validator == key {
                assert(taken.push(key)[taken.len() as int] == key);
            }
            if taken.push(key).contains(last.validator) {
                let i = choose|i: int| 0 <= i < taken.push(key).len() && taken.push(key)[i]
                    == last.validator;
                if i < taken.len() {
                    assert(taken[i] == last.validator);
                }
            }
        }
        if last.validator == key {
            assert(!holds(rest, key)) by {
                if holds(rest, key) {
                    let i = choose|i: int| 0 <= i < rest.len() && (#[trigger] rest[i]).validator
                        == key;
                    assert(entries[i].validator != entries[entries.len() - 1].validator);
                }
            }
            assert(entries[entries.len() - 1].validator == key);
        } else {
            if holds(rest, key) {
                let i = choose|i: int| 0 <= i < rest.len() && (#[trigger] rest[i]).validator
                    == key;
                assert(entries[i].validator == key);
            }
        }
    }
}

/// Leaving validators out takes no more entries away than validators are
/// left out.
pub proof fn lemma_left_out_count(entries: Seq<NodeCredibilityView>, taken: Seq<Seq<u8>>)
    requires
        keys_distinct(entries),
    ensures
        without_keys(entries, taken).len() + taken.len() >= entries.len(),
    decreases taken.len(),
{
    if taken.len() == 0 {
        lemma_nothing_left_out(entries);
        assert(taken =~= Seq::<Seq<u8>>::empty());
    } else {
        lemma_left_out_count(entries, taken.drop_last());
        lemma_one_more_left_out(entries, taken.drop_last(), taken.last());
        assert(taken.drop_last().push(taken.last()) =~= taken);
    }
}

/// Leaving nobody out leaves all entries.
proof fn lemma_nothing_left_out(entries: Seq<NodeCredibilityView>)
    ensures
        without_keys(entries, Seq::empty()) == entries,
    decreases entries.len(),
{
    if entries.len() > 0 {
        lemma_nothing_left_out(entries.drop_last());
        assert(entries.drop_last().push(entries.last()) =~= entries);
    }
}

/// Where every validator is left out, no entry is left.
proof fn lemma_all_left_out(entries: Seq<NodeCredibilityView>, taken: Seq<Seq<u8>>)
    requires
        forall|i: int| 0 <= i < entries.len() ==> taken.contains((#[trigger] entries[i]).validator),
    ensures
        without_keys(entries, taken).len() == 0,
    decreases entries.len(),
{
    if entries.len() > 0 {
        assert forall|i: int| 0 <= i < entries.drop_last().len() implies taken.contains(
            (#[trigger] entries.drop_last()[i]).validator,
        ) by {
            assert(entries.drop_last()[i] == entries[i]);
        }
        lemma_all_left_out(entries.drop_last(), taken);
        assert(taken.contains(entries[entries.len() - 1].validator));
    }
}

/// The validators of `entries`, position by position.
pub open spec fn keys_of(entries: Seq<NodeCredibilityView>) -> Seq<Seq<u8>> {
    Seq::new(entries.len(), |i: int| entries[i].validator)
}

/// A list of validators that are all in a register is no longer than the
/// register.
pub proof fn lemma_listed_are_fewer(
    listed: Seq<NodeCredibilityView>,
    register: Seq<NodeCredibilityView>,
)
    requires
        keys_distinct(listed),
        forall|key: Seq<u8>| #[trigger] holds(listed, key) ==> holds(register, key),
    ensures
        listed.len() <= register.len(),
{
    let names = keys_of(register);
    assert forall|i: int| 0 <= i < listed.len() implies names.contains(
        (#[trigger] listed[i]).validator,
    ) by {
        assert(holds(listed, listed[i].validator));
        let k = choose|k: int| 0 <= k < register.len() && (#[trigger] register[k]).validator
            == listed[i].validator;
        assert(names[k] == listed[i].validator);
    }
    lemma_all_left_out(listed, names);
    lemma_left_out_count(listed, names);
}

/// Nobody stands twice on a roster; the first places are held by
/// trustworthy validators, as many as the plan gives them where the
/// numbers suffice, and the others by validators of the population; and
/// where the trustworthy validators are part of the population, the roster
/// is no larger than their list and there is a number for every place, all
/// places are filled.
pub proof fn lemma_roster(
    trustworthy: Seq<NodeCredibilityView>,
    population: Seq<NodeCredibilityView>,
    by_credibility: nat,
    at_random: nat,
    numbers: Seq<u64>,
)
    requires
        keys_distinct(trustworthy),
        keys_distinct(population),
    ensures
        roster(trustworthy, population, by_credibility, at_random, numbers).no_duplicates(),
        roster(trustworthy, population, by_credibility, at_random, numbers).len()
            <= by_credibility + at_random,
        forall|i: int|
            0 <= i < roster(trustworthy, population, by_credibility, at_random, numbers).len()
                ==> if i < drawn(trustworthy, true, numbers, by_credibility).len() {
                holds(
                    trustworthy,
                    #[trigger] roster(
                        trustworthy,
                        population,
                        by_credibility,
                        at_random,
                        numbers,
                    )[i],
                )
            } else {
                holds(
                    population,
                    roster(trustworthy, population, by_credibility, at_random, numbers)[i],
                )
            },
        by_credibility <= trustworthy.len() && by_credibility <= numbers.len() ==> drawn(
            trustworthy,
            true,
            numbers,
            by_credibility,
        ).len() == by_credibility,
        by_credibility + at_random <= trustworthy.len() && by_credibility + at_random
            <= numbers.len() && (forall|key: Seq<u8>| #[trigger]
            holds(trustworthy, key) ==> holds(population, key)) ==> roster(
            trustworthy,
            population,
            by_credibility,
            at_random,
            numbers,
        ).len() == by_credibility + at_random,
{
    let first = drawn(trustworthy, true, numbers, by_credibility);
    let others = without_keys(population, first);
    let later = numbers.skip(first.len() as int);
    let second = drawn(others, false, later, at_random);
    let all = roster(trustworthy, population, by_credibility, at_random, numbers);
    lemma_drawn_len(trustworthy, true, numbers, by_credibility);
    lemma_drawn_from_pool(trustworthy, true, numbers, by_credibility);
    lemma_without_keys(population, first);
    lemma_drawn_len(others, false, later, at_random);
    lemma_drawn_from_pool(others, false, later, at_random);
    assert(all == first + second);
    assert forall|i: int| 0 <= i < all.len() implies if i < first.len() {
        holds(trustworthy, #[trigger] all[i])
    } else {
        holds(population, all[i]) && !first.contains(all[i])
    } by {
        if i < first.len() {
            assert(all[i] == first[i]);
        } else {
            assert(all[i] == second[i - first.len()]);
            assert(holds(others, second[i - first.len()]));
        }
    }
    assert forall|i: int, j: int| 0 <= i < j < all.len() implies all[i] != all[j] by {
        if j < first.len() {
            assert(all[i] == first[i] && all[j] == first[j]);
        } else if i < first.len() {
            assert(all[i] == first[i]);
            assert(!first.contains(all[j]));
        } else {
            assert(all[i] == second[i - first.len()] && all[j] == second[j - first.len()]);
        }
    }
    if by_credibility + at_random <= trustworthy.len() && by_credibility + at_random
        <= numbers.len() && (forall|key: Seq<u8>| #[trigger]
        holds(trustworthy, key) ==> holds(population, key)) {
        lemma_listed_are_fewer(trustworthy, population);
        lemma_left_out_count(population, first);
    }
}

} // verus!
