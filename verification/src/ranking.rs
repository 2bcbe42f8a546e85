//! The order in which the groups of a round are considered: the larger share
//! first, and among equal shares the group that the rule for ties prefers.

use crate::shares::{lemma_seq_sum_insert, seq_sum};
use crate::tally::{Group, GroupView};
use vstd::prelude::*;

verus! {

/// Which of two groups with equal shares is considered first.
#[derive(Debug, Clone, Copy, PartialEq, Eq, Structural)]
pub enum TieBreak {
    /// The group whose fingerprint was seen first.
    FirstSeen,
    /// The group whose fingerprint was seen last.
    LastSeen,
}

/// The shares of the groups, position by position.
pub open spec fn shares(groups: Seq<GroupView>) -> Seq<nat> {
    Seq::new(groups.len(), |g: int| groups[g].credibility_weight)
}

/// Whether the group at `i` is considered before the group at `j`.
pub open spec fn precedes(weights: Seq<nat>, rule: TieBreak, i: int, j: int) -> bool {
    weights[i] > weights[j] || (weights[i] == weights[j] && match rule {
        TieBreak::FirstSeen => i < j,
        TieBreak::LastSeen => i > j,
    })
}

/// Whether `order` lists every position of `weights` once, each before all
/// those that it precedes.
pub open spec fn is_ranking(weights: Seq<nat>, rule: TieBreak, order: Seq<int>) -> bool {
    &&& order.len() == weights.len()
    &&& forall|a: int| 0 <= a < order.len() ==> 0 <= #[trigger] order[a] < weights.len()
    &&& forall|a: int, b: int|
        0 <= a < b < order.len() ==> precedes(
            weights,
            rule,
            #[trigger] order[a],
            #[trigger] order[b],
        )
    &&& forall|i: int| 0 <= i < weights.len() ==> #[trigger] order.contains(i)
}

/// The ranking of the positions of `weights`.
pub open spec fn ranking(weights: Seq<nat>, rule: TieBreak) -> Seq<int> {
    choose|order: Seq<int>| is_ranking(weights, rule, order)
}

/// The positions that a vector of indices holds.
pub open spec fn positions(order: Seq<usize>) -> Seq<int> {
    Seq::new(order.len(), |a: int| order[a] as int)
}

/// Whether a group with share `other` is considered before a later group
/// with share `weight`.
pub open spec fn stays_ahead(rule: TieBreak, other: nat, weight: nat) -> bool {
    other > weight || (other == weight && rule == TieBreak::FirstSeen)
}

proof fn lemma_rankings_agree_at(
    weights: Seq<nat>,
    rule: TieBreak,
    first: Seq<int>,
    second: Seq<int>,
    k: int,
)
    requires
        is_ranking(weights, rule, first),
        is_ranking(weights, rule, second),
        0 <= k < weights.len(),
    ensures
        first[k] == second[k],
    decreases k,
{
    assert forall|j: int| 0 <= j < k implies first[j] == second[j] by {
        lemma_rankings_agree_at(weights, rule, first, second, j);
    }
    let x = first[k];
    assert(second.contains(x));
    let p = choose|p: int| 0 <= p < second.len() && second[p] == x;
    if p < k {
        assert(precedes(weights, rule, first[p], first[k]));
    }
    if p > k {
        let y = second[k];
        assert(precedes(weights, rule, second[k], second[p]));
        assert(first.contains(y));
        let q = choose|q: int| 0 <= q < first.len() && first[q] == y;
        if q < k {
            assert(precedes(weights, rule, second[q], second[k]));
        }
        if q > k {
            assert(precedes(weights, rule, first[k], first[q]));
        }
    }
}

/// There is one ranking only.
pub proof fn lemma_ranking_unique(
    weights: Seq<nat>,
    rule: TieBreak,
    first: Seq<int>,
    second: Seq<int>,
)
    requires
        is_ranking(weights, rule, first),
        is_ranking(weights, rule, second),
    ensures
        first == second,
{
    assert forall|k: int| 0 <= k < first.len() implies first[k] == second[k] by {
        lemma_rankings_agree_at(weights, rule, first, second, k);
    }
    assert(first =~= second);
}

/// Where the last position of `weights` enters `order`: behind the last
/// position that stays ahead of it.
spec fn slot_for(weights: Seq<nat>, rule: TieBreak, order: Seq<int>, weight: nat) -> int
    decreases order.len(),
{
    if order.len() == 0 {
        0
    } else if stays_ahead(rule, weights[order.last()], weight) {
        order.len() as int
    } else {
        slot_for(weights, rule, order.drop_last(), weight)
    }
}

proof fn lemma_slot_for(weights: Seq<nat>, rule: TieBreak, order: Seq<int>, weight: nat)
    ensures
        0 <= slot_for(weights, rule, order, weight) <= order.len(),
        forall|a: int|
            slot_for(weights, rule, order, weight) <= a < order.len() ==> !stays_ahead(
                rule,
                weights[#[trigger] order[a]],
                weight,
            ),
        slot_for(weights, rule, order, weight) > 0 ==> stays_ahead(
            rule,
            weights[order[slot_for(weights, rule, order, weight) - 1]],
            weight,
        ),
    decreases order.len(),
{
    if order.len() > 0 && !stays_ahead(rule, weights[order.last()], weight) {
        lemma_slot_for(weights, rule, order.drop_last(), weight);
        let slot = slot_for(weights, rule, order, weight);
        assert forall|a: int| slot <= a < order.len() implies !stays_ahead(
            rule,
            weights[#[trigger] order[a]],
            weight,
        ) by {
            if a < order.len() - 1 {
                assert(order.drop_last()[a] == order[a]);
            }
        }
        if slot > 0 {
            assert(order.drop_last()[slot - 1] == order[slot - 1]);
        }
    }
}

/// Entering the last position of `weights` at `slot` into a ranking of the
/// positions before it gives a ranking of all positions.
proof fn lemma_enter_last(
    weights: Seq<nat>,
    rule: TieBreak,
    before: Seq<int>,
    after: Seq<int>,
    slot: int,
)
    requires
        weights.len() > 0,
        before.len() == weights.len() - 1,
        forall|a: int| 0 <= a < before.len() ==> 0 <= #[trigger] before[a] < weights.len() - 1,
        forall|a: int, b: int|
            0 <= a < b < before.len() ==> precedes(
                weights,
                rule,
                #[trigger] before[a],
                #[trigger] before[b],
            ),
        forall|i: int| 0 <= i < weights.len() - 1 ==> #[trigger] before.contains(i),
        0 <= slot <= before.len(),
        forall|a: int|
            slot <= a < before.len() ==> !stays_ahead(
                rule,
                weights[#[trigger] before[a]],
                weights.last(),
            ),
        slot > 0 ==> stays_ahead(rule, weights[before[slot - 1]], weights.last()),
        after == before.insert(slot, weights.len() - 1),
    ensures
        is_ranking(weights, rule, after),
{
    let i = weights.len() - 1;
    let weight = weights[i];
    assert forall|a: int| 0 <= a < slot implies stays_ahead(
        rule,
        weights[#[trigger] before[a]],
        weight,
    ) by {
        if a < slot - 1 {
            assert(precedes(weights, rule, before[a], before[slot - 1]));
        }
    }
    assert forall|a: int, b: int| 0 <= a < b < after.len() implies precedes(
        weights,
        rule,
        #[trigger] after[a],
        #[trigger] after[b],
    ) by {
        if b < slot {
            assert(after[a] == before[a] && after[b] == before[b]);
        } else if b == slot {
            assert(after[a] == before[a]);
        } else if a < slot {
            assert(after[a] == before[a] && after[b] == before[b - 1]);
        } else if a == slot {
            assert(after[b] == before[b - 1]);
        } else {
            assert(after[a] == before[a - 1] && after[b] == before[b - 1]);
        }
    }
    assert forall|a: int| 0 <= a < after.len() implies 0 <= #[trigger] after[a]
        < weights.len() by {
        if a < slot {
            assert(after[a] == before[a]);
        } else if a > slot {
            assert(after[a] == before[a - 1]);
        }
    }
    assert forall|k: int| 0 <= k < weights.len() implies #[trigger] after.contains(k) by {
        if k == i {
            assert(after[slot] == k);
        } else {
            assert(before.contains(k));
            let a = choose|a: int| 0 <= a < before.len() && before[a] == k;
            if a < slot {
                assert(after[a] == k);
            } else {
                assert(after[a + 1] == k);
            }
        }
    }
}

/// Every sequence of weights has a ranking.
pub proof fn lemma_ranking_exists(weights: Seq<nat>, rule: TieBreak)
    ensures
        is_ranking(weights, rule, ranking(weights, rule)),
    decreases weights.len(),
{
    if weights.len() == 0 {
        assert(is_ranking(weights, rule, Seq::<int>::empty()));
    } else {
        let rest = weights.drop_last();
        lemma_ranking_exists(rest, rule);
        let before = ranking(rest, rule);
        lemma_slot_for(weights, rule, before, weights.last());
        let slot = slot_for(weights, rule, before, weights.last());
        let after = before.insert(slot, weights.len() - 1);
        assert forall|a: int, b: int| 0 <= a < b < before.len() implies precedes(
            weights,
            rule,
            #[trigger] before[a],
            #[trigger] before[b],
        ) by {
            assert(precedes(rest, rule, before[a], before[b]));
        }
        lemma_enter_last(weights, rule, before, after, slot);
    }
}

/// The weights as `order` lists their positions.
pub open spec fn ranked(weights: Seq<nat>, order: Seq<int>) -> Seq<nat> {
    Seq::new(order.len(), |a: int| weights[order[a]])
}

/// The ranking of weights is the ranking of all but the last, with the
/// last position entered at its place.
proof fn lemma_ranking_step(weights: Seq<nat>, rule: TieBreak) -> (slot: int)
    requires
        weights.len() > 0,
    ensures
        is_ranking(weights.drop_last(), rule, ranking(weights.drop_last(), rule)),
        0 <= slot <= weights.len() - 1,
        ranking(weights, rule) == ranking(weights.drop_last(), rule).insert(
            slot,
            weights.len() - 1,
        ),
{
    let rest = weights.drop_last();
    lemma_ranking_exists(rest, rule);
    lemma_ranking_exists(weights, rule);
    let before = ranking(rest, rule);
    lemma_slot_for(weights, rule, before, weights.last());
    let slot = slot_for(weights, rule, before, weights.last());
    let after = before.insert(slot, weights.len() - 1);
    assert forall|a: int, b: int| 0 <= a < b < before.len() implies precedes(
        weights,
        rule,
        #[trigger] before[a],
        #[trigger] before[b],
    ) by {
        assert(precedes(rest, rule, before[a], before[b]));
    }
    lemma_enter_last(weights, rule, before, after, slot);
    lemma_ranking_unique(weights, rule, after, ranking(weights, rule));
    slot
}

/// The weights add up to the same in ranked order as in their own.
pub proof fn lemma_ranking_keeps_sum(weights: Seq<nat>, rule: TieBreak)
    ensures
        seq_sum(ranked(weights, ranking(weights, rule))) == seq_sum(weights),
    decreases weights.len(),
{
    lemma_ranking_exists(weights, rule);
    let order = ranking(weights, rule);
    if weights.len() == 0 {
        assert(ranked(weights, order) =~= Seq::<nat>::empty());
    } else {
        let rest = weights.drop_last();
        let before = ranking(rest, rule);
        let slot = lemma_ranking_step(weights, rule);
        lemma_ranking_keeps_sum(rest, rule);
        assert forall|a: int| 0 <= a < before.len() implies weights[#[trigger] before[a]]
            == rest[before[a]] by {
        }
        assert(ranked(weights, order) =~= ranked(rest, before).insert(slot, weights.last()));
        lemma_seq_sum_insert(ranked(rest, before), slot, weights.last());
    }
}

/// The first of the ranking has the largest weight, and among the positions
/// with that weight it is the one that the rule for ties prefers.
pub proof fn lemma_top_of_ranking(weights: Seq<nat>, rule: TieBreak)
    requires
        weights.len() > 0,
    ensures
        0 <= ranking(weights, rule)[0] < weights.len(),
        forall|g: int|
            0 <= g < weights.len() ==> #[trigger] weights[g] <= weights[ranking(weights, rule)[0]],
        forall|g: int|
            0 <= g < weights.len() && #[trigger] weights[g] == weights[ranking(weights, rule)[0]]
                ==> match rule {
                TieBreak::FirstSeen => ranking(weights, rule)[0] <= g,
                TieBreak::LastSeen => ranking(weights, rule)[0] >= g,
            },
{
    lemma_ranking_exists(weights, rule);
    let order = ranking(weights, rule);
    assert forall|g: int| 0 <= g < weights.len() implies #[trigger] weights[g] <= weights[order[0]]
        && (weights[g] == weights[order[0]] ==> match rule {
        TieBreak::FirstSeen => order[0] <= g,
        TieBreak::LastSeen => order[0] >= g,
    }) by {
        assert(order.contains(g));
        let a = choose|a: int| 0 <= a < order.len() && order[a] == g;
        if a > 0 {
            assert(precedes(weights, rule, order[0], order[a]));
        }
    }
}

/// Whether a group with share `other` is considered before a later group
/// with share `weight`.
fn ahead(rule: TieBreak, other: u32, weight: u32) -> (stays: bool)
    ensures
        stays == stays_ahead(rule, other as nat, weight as nat),
{
    match rule {
        TieBreak::FirstSeen => other >= weight,
        TieBreak::LastSeen => other > weight,
    }
}

/// Ranks the groups by share.
pub fn rank(groups: &Vec<Group>, rule: TieBreak) -> (order: Vec<usize>)
    ensures
        is_ranking(shares(groups.deep_view()), rule, positions(order@)),
        positions(order@) == ranking(shares(groups.deep_view()), rule),
{
    let ghost weights = shares(groups.deep_view());
    let mut order: Vec<usize> = Vec::new();
    let mut i: usize = 0;
    assert(is_ranking(weights.take(0), rule, positions(order@)));
    while i < groups.len()
        invariant
            i <= groups.len(),
            weights == shares(groups.deep_view()),
            order.len() == i,
            is_ranking(weights.take(i as int), rule, positions(order@)),
        decreases groups.len() - i,
    {
        let weight = groups[i].credibility.credibility_weight;
        let ghost upto = weights.take(i + 1);
        let ghost before = positions(order@);
        assert(upto.last() == weight);
        assert forall|a: int| 0 <= a < order.len() implies #[trigger] order[a] < i by {
            assert(before[a] == order[a]);
        }
        let mut slot: usize = order.len();
        while slot > 0 && !ahead(rule, groups[order[slot - 1]].credibility.credibility_weight, weight)
            invariant
                slot <= order.len(),
                order.len() == i,
                i < groups.len(),
                weights == shares(groups.deep_view()),
                weights[i as int] == weight,
                before == positions(order@),
                forall|a: int| 0 <= a < order.len() ==> #[trigger] order[a] < i,
                forall|a: int|
                    slot <= a < before.len() ==> !stays_ahead(
                        rule,
                        weights[#[trigger] before[a]],
                        weight as nat,
                    ),
            decreases slot,
        {
            assert(before[slot - 1] == order[slot - 1]);
            assert(weights[order[slot - 1] as int] == groups[order[slot - 1] as int].credibility.credibility_weight);
            slot = slot - 1;
        }
        proof {
            if slot > 0 {
                assert(before[slot - 1] == order[slot - 1]);
                assert(weights[order[slot - 1] as int] == groups[order[slot - 1] as int].credibility.credibility_weight);
            }
            assert forall|a: int| 0 <= a < before.len() implies 0 <= #[trigger] before[a] < i by {
                assert(before[a] == order[a]);
            }
            assert forall|a: int, b: int| 0 <= a < b < before.len() implies precedes(
                upto,
                rule,
                #[trigger] before[a],
                #[trigger] before[b],
            ) by {
                assert(precedes(weights.take(i as int), rule, before[a], before[b]));
            }
            assert forall|a: int| 0 <= a < before.len() implies upto[#[trigger] before[a]]
                == weights[before[a]] by {
            }
        }
        order.insert(slot, i);
        proof {
            assert(positions(order@) =~= before.insert(slot as int, i as int));
            lemma_enter_last(upto, rule, before, positions(order@), slot as int);
        }
        i = i + 1;
    }
    proof {
        assert(weights.take(groups.len() as int) =~= weights);
        lemma_ranking_unique(weights, rule, positions(order@), ranking(weights, rule));
    }
    order
}

} // verus!
