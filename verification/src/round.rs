//! A round as a whole: what the outcome of the verification does to the
//! scores once the evaluation service has heard of it.

use crate::credibility::{reported, NodeCredibilityView};
use crate::message::MessageVerifyView;
use crate::msg_verify::{
    lemma_validators_named_once, resolution, shares_of, validators, validators_of, verdict,
    OutcomeView,
};
use crate::node_evaluation::{
    credibility_report, lemma_report_read_back, lemma_round_steps_once,
    lemma_updated_well_formed, named_in, named_once, updated, well_formed, ContractView,
};
use crate::ranking::{lemma_ranking_exists, precedes, ranking, shares, TieBreak};
use crate::reputation::{next_score, Standing};
use crate::store::score_of;
use crate::tally::{
    apart, ballots, fingerprints, group_of, groups, lemma_fingerprints_cover, lemma_groups_apart,
    lemma_members_cover, lemma_one_group_for_each_copy, one_voice_each, GroupView,
};
use vstd::prelude::*;

verus! {

/// Whoever resolves a round with the report that the store gave on the
/// query of that round weighs every copy by the score that the store holds
/// for its validator.
pub proof fn lemma_round_weighs_by_the_store(
    entries: Seq<NodeCredibilityView>,
    copies: Seq<MessageVerifyView>,
    i: int,
)
    requires
        0 <= i < copies.len(),
    ensures
        reported(credibility_report(entries, validators(copies)), copies[i].validator)
            == score_of(entries, copies[i].validator),
{
    lemma_validators_named_once(copies, copies[i].validator);
    lemma_report_read_back(entries, validators(copies), copies[i].validator);
}

/// Whether one of the groups at `places` lists `key`.
pub open spec fn listed_at(groups: Seq<GroupView>, places: Seq<int>, key: Seq<u8>) -> bool {
    exists|a: int| 0 <= a < places.len() && #[trigger] groups[places[a]].validators.contains(key)
}

/// The validators of the groups at `places` are those that these groups
/// list.
pub proof fn lemma_validators_of_cover(groups: Seq<GroupView>, places: Seq<int>, key: Seq<u8>)
    ensures
        validators_of(groups, places).contains(key) <==> listed_at(groups, places, key),
    decreases places.len(),
{
    let all = validators_of(groups, places);
    if places.len() > 0 {
        let rest = places.drop_last();
        let end = places.len() - 1;
        let before = validators_of(groups, rest);
        let more = groups[places[end]].validators;
        lemma_validators_of_cover(groups, rest, key);
        assert(all == before + more);
        if all.contains(key) {
            let i = choose|i: int| 0 <= i < all.len() && all[i] == key;
            if i < before.len() {
                assert(before[i] == key);
                assert(listed_at(groups, rest, key));
                let a = choose|a: int|
                    0 <= a < rest.len() && #[trigger] groups[rest[a]].validators.contains(key);
                assert(rest[a] == places[a]);
                assert(groups[places[a]].validators.contains(key));
            } else {
                assert(more[i - before.len()] == key);
                assert(groups[places[end]].validators.contains(key));
            }
        }
        if listed_at(groups, places, key) {
            let a = choose|a: int|
                0 <= a < places.len() && #[trigger] groups[places[a]].validators.contains(key);
            if a < end {
                assert(rest[a] == places[a]);
                assert(groups[rest[a]].validators.contains(key));
                assert(listed_at(groups, rest, key));
                let i = choose|i: int| 0 <= i < before.len() && before[i] == key;
                assert(all[i] == key);
            } else {
                let i = choose|i: int| 0 <= i < more.len() && more[i] == key;
                assert(all[before.len() + i] == key);
            }
        }
    }
}

/// The validators of groups at different positions are all different.
proof fn lemma_validators_of_distinct(groups: Seq<GroupView>, places: Seq<int>)
    requires
        apart(groups),
        forall|a: int| 0 <= a < places.len() ==> 0 <= #[trigger] places[a] < groups.len(),
        forall|a: int, b: int|
            0 <= a < b < places.len() ==> #[trigger] places[a] != #[trigger] places[b],
    ensures
        validators_of(groups, places).no_duplicates(),
    decreases places.len(),
{
    let all = validators_of(groups, places);
    if places.len() > 0 {
        let rest = places.drop_last();
        let end = places.len() - 1;
        let before = validators_of(groups, rest);
        let more = groups[places[end]].validators;
        assert forall|a: int| 0 <= a < rest.len() implies 0 <= #[trigger] rest[a] < groups.len() by {
            assert(rest[a] == places[a]);
        }
        assert forall|a: int, b: int| 0 <= a < b < rest.len() implies #[trigger] rest[a]
            != #[trigger] rest[b] by {
            assert(rest[a] == places[a] && rest[b] == places[b]);
        }
        lemma_validators_of_distinct(groups, rest);
        assert(all == before + more);
        assert(more.no_duplicates());
        assert forall|i: int, j: int| 0 <= i < j < all.len() implies all[i] != all[j] by {
            if j < before.len() {
                assert(all[i] == before[i] && all[j] == before[j]);
            } else if i >= before.len() {
                assert(all[i] == more[i - before.len()] && all[j] == more[j - before.len()]);
            } else {
                let key = all[i];
                assert(key == before[i] && all[j] == more[j - before.len()]);
                if key == all[j] {
                    assert(before.contains(key));
                    lemma_validators_of_cover(groups, rest, key);
                    let a = choose|a: int|
                        0 <= a < rest.len() && #[trigger] groups[rest[a]].validators.contains(key);
                    assert(rest[a] == places[a]);
                    lemma_kept_apart(groups, places[a], places[end], key);
                }
            }
        }
    }
}

/// A validator that one group lists is not listed by another.
proof fn lemma_kept_apart(groups: Seq<GroupView>, g: int, h: int, key: Seq<u8>)
    requires
        apart(groups),
        0 <= g < groups.len(),
        0 <= h < groups.len(),
        g != h,
        groups[g].validators.contains(key),
    ensures
        !groups[h].validators.contains(key),
{
}

/// Where no validator is listed in two groups, the outcome names no
/// validator twice.
pub proof fn lemma_verdict_names_once(groups: Seq<GroupView>, rule: TieBreak, threshold: u32)
    requires
        groups.len() > 0,
        apart(groups),
    ensures
        verdict(groups, rule, threshold).trusted.no_duplicates(),
        verdict(groups, rule, threshold).untrusted.no_duplicates(),
        named_once(verdict(groups, rule, threshold).exception),
        forall|key: Seq<u8>|
            !(#[trigger] verdict(groups, rule, threshold).trusted.contains(key) && verdict(
                groups,
                rule,
                threshold,
            ).untrusted.contains(key)),
        forall|key: Seq<u8>| #[trigger]
            named_in(verdict(groups, rule, threshold).exception, key) ==> !verdict(
                groups,
                rule,
                threshold,
            ).trusted.contains(key) && !verdict(groups, rule, threshold).untrusted.contains(key),
{
    let weights = shares(groups);
    let order = ranking(weights, rule);
    let outcome = verdict(groups, rule, threshold);
    lemma_ranking_exists(weights, rule);
    assert forall|a: int, b: int| 0 <= a < b < order.len() implies #[trigger] order[a]
        != #[trigger] order[b] by {
        assert(precedes(weights, rule, order[a], order[b]));
    }
    let top = groups[order[0]];
    if top.credibility_weight >= threshold {
        let rest = order.skip(1);
        assert forall|a: int| 0 <= a < rest.len() implies 0 <= #[trigger] rest[a] < groups.len() by {
            assert(rest[a] == order[a + 1]);
        }
        assert forall|a: int, b: int| 0 <= a < b < rest.len() implies #[trigger] rest[a]
            != #[trigger] rest[b] by {
            assert(rest[a] == order[a + 1] && rest[b] == order[b + 1]);
        }
        lemma_validators_of_distinct(groups, rest);
        assert forall|key: Seq<u8>|
            !(#[trigger] outcome.trusted.contains(key) && outcome.untrusted.contains(key)) by {
            if outcome.trusted.contains(key) && outcome.untrusted.contains(key) {
                lemma_validators_of_cover(groups, rest, key);
                let a = choose|a: int|
                    0 <= a < rest.len() && #[trigger] groups[rest[a]].validators.contains(key);
                assert(rest[a] == order[a + 1]);
                assert(order[0] != order[a + 1]);
                lemma_kept_apart(groups, order[0], order[a + 1], key);
            }
        }
        assert forall|key: Seq<u8>| #[trigger] named_in(outcome.exception, key) implies false by {
        }
    } else {
        let listed = shares_of(groups, order);
        assert forall|g: int| 0 <= g < listed.len() implies (#[trigger] listed[g]).0.no_duplicates() by {
        }
        assert forall|g: int, h: int, key: Seq<u8>|
            0 <= g < h < listed.len() && #[trigger] listed[g].0.contains(
                key,
            ) implies !#[trigger] listed[h].0.contains(key) by {
            assert(order[g] != order[h]);
            lemma_kept_apart(groups, order[g], order[h], key);
        }
        assert(outcome.trusted =~= Seq::<Seq<u8>>::empty());
        assert(outcome.untrusted =~= Seq::<Seq<u8>>::empty());
    }
}

/// Whether `outcome` names `key`: as trusted, as untrusted, or in a group of
/// a round without a winner.
pub open spec fn names(outcome: OutcomeView, key: Seq<u8>) -> bool {
    outcome.trusted.contains(key) || outcome.untrusted.contains(key) || named_in(
        outcome.exception,
        key,
    )
}

/// The outcome of a round names every validator that submitted a copy, and
/// nobody else.
pub proof fn lemma_outcome_names_the_submitters(
    copies: Seq<MessageVerifyView>,
    hashes: Seq<Seq<char>>,
    table: Seq<NodeCredibilityView>,
    rule: TieBreak,
    threshold: u32,
    key: Seq<u8>,
)
    requires
        copies.len() > 0,
        hashes.len() == copies.len(),
    ensures
        names(resolution(copies, hashes, table, rule, threshold), key) <==> exists|i: int|
            0 <= i < copies.len() && (#[trigger] copies[i]).validator == key,
{
    let all = ballots(copies, hashes);
    let filed = groups(all, table);
    let prints = fingerprints(all);
    let weights = shares(filed);
    let order = ranking(weights, rule);
    let outcome = verdict(filed, rule, threshold);
    let rest = order.skip(1);
    lemma_fingerprints_cover(all, all[0].fingerprint);
    lemma_ranking_exists(weights, rule);
    lemma_validators_of_cover(filed, rest, key);
    let accepted = filed[order[0]].credibility_weight >= threshold;
    if exists|i: int| 0 <= i < copies.len() && (#[trigger] copies[i]).validator == key {
        let i = choose|i: int| 0 <= i < copies.len() && (#[trigger] copies[i]).validator == key;
        assert(all[i].validator == key);
        lemma_one_group_for_each_copy(all, table, i);
        let g = group_of(all, i);
        assert(filed[g].validators.contains(key));
        assert(order.contains(g));
        let a = choose|a: int| 0 <= a < order.len() && order[a] == g;
        if accepted {
            if a > 0 {
                assert(rest[a - 1] == g);
                assert(filed[rest[a - 1]].validators.contains(key));
                assert(listed_at(filed, rest, key));
            }
        } else {
            assert(outcome.exception[a].0.contains(key));
        }
        assert(names(outcome, key));
    }
    if names(outcome, key) {
        let g = if accepted {
            if outcome.trusted.contains(key) {
                order[0]
            } else {
                let a = choose|a: int|
                    0 <= a < rest.len() && #[trigger] filed[rest[a]].validators.contains(key);
                assert(rest[a] == order[a + 1]);
                rest[a]
            }
        } else {
            let a = choose|a: int|
                0 <= a < outcome.exception.len() && (#[trigger] outcome.exception[a]).0.contains(
                    key,
                );
            order[a]
        };
        assert(0 <= g < filed.len() && filed[g].validators.contains(key));
        lemma_members_cover(all, prints[g], key);
        let i = choose|i: int|
            0 <= i < all.len() && #[trigger] all[i].fingerprint == prints[g] && all[i].validator
                == key;
        assert(copies[i].validator == key);
    }
}

/// In a round in which every validator submitted under one fingerprint,
/// every validator that the outcome names takes exactly one step from the
/// score it had: up where it stood with the accepted message, down where it
/// stood against it, and down by what the share of its group left where no
/// message was accepted. All other validators keep their scores.
pub proof fn lemma_round_moves_each_once(
    copies: Seq<MessageVerifyView>,
    hashes: Seq<Seq<char>>,
    table: Seq<NodeCredibilityView>,
    rule: TieBreak,
    threshold: u32,
    state: ContractView,
    key: Seq<u8>,
)
    requires
        copies.len() > 0,
        hashes.len() == copies.len(),
        one_voice_each(ballots(copies, hashes)),
        well_formed(state),
    ensures
        ({
            let outcome = resolution(copies, hashes, table, rule, threshold);
            let after = updated(state, outcome.trusted, outcome.untrusted, outcome.exception);
            let was = score_of(state.node_credibility, key) as int;
            let is = score_of(after.node_credibility, key) as int;
            &&& well_formed(after)
            &&& outcome.trusted.contains(key) ==> is == next_score(Standing::Trusted, was, 0)
            &&& outcome.untrusted.contains(key) ==> is == next_score(Standing::Untrusted, was, 0)
            &&& forall|g: int|
                0 <= g < outcome.exception.len() && (#[trigger] outcome.exception[g]).0.contains(
                    key,
                ) ==> is == next_score(Standing::Exception, was, outcome.exception[g].1 as int)
            &&& !outcome.trusted.contains(key) && !outcome.untrusted.contains(key) && !named_in(
                outcome.exception,
                key,
            ) ==> is == was
        }),
{
    let all = ballots(copies, hashes);
    let filed = groups(all, table);
    lemma_fingerprints_cover(all, all[0].fingerprint);
    lemma_groups_apart(all, table);
    lemma_verdict_names_once(filed, rule, threshold);
    let outcome = verdict(filed, rule, threshold);
    lemma_round_steps_once(state, outcome.trusted, outcome.untrusted, outcome.exception, key);
    lemma_updated_well_formed(state, outcome.trusted, outcome.untrusted, outcome.exception);
}

} // verus!
