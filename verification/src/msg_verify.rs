//! Verification of a message from the copies that validators submitted.
//!
//! A round has two steps with one wait between them. `msg_verify` says whose
//! credibility must be fetched; once the reply is in, `credibility_callback`
//! resolves the round. The outcome names the accepted message, if there is
//! one, and the validators whose reputation is to rise or fall.

use crate::credibility::{weighted_groups, NodeCredibility, NodeCredibilityView, PRECISION};
use crate::fingerprint::{fingerprint_of, ToHash};
use crate::identity::{append_keys, clone_keys, holds_key, PublicKey};
use crate::message::{Message, MessageVerify, MessageVerifyView, MessageView};
use crate::ranking::{
    lemma_ranking_exists, lemma_ranking_keeps_sum, lemma_top_of_ranking, positions, rank, ranked,
    ranking, shares, TieBreak,
};
use crate::shares::seq_sum;
use crate::tally::{
    ballots, group_of, group_weights, groups, lemma_fingerprints_cover,
    lemma_same_group_same_fingerprint, lemma_weights_conserved, tally, Ballot, Group, GroupView,
};
use vstd::prelude::*;

pub use crate::tally::GroupCredibility;

verus! {

/// How a round ended.
///
/// Where a message was accepted, `trusted` holds the validators that
/// submitted it and `untrusted` those of all other groups. Where none was,
/// `exception` holds every group with its share.
#[derive(Debug)]
pub struct Outcome {
    pub accepted_message: Option<Message>,
    pub trusted: Vec<PublicKey>,
    pub untrusted: Vec<PublicKey>,
    pub exception: Vec<(Vec<PublicKey>, u32)>,
}

/// An outcome over key bytes and message fields.
pub struct OutcomeView {
    pub accepted_message: Option<MessageView>,
    pub trusted: Seq<Seq<u8>>,
    pub untrusted: Seq<Seq<u8>>,
    pub exception: Seq<(Seq<Seq<u8>>, nat)>,
}

impl View for Outcome {
    type V = OutcomeView;

    open spec fn view(&self) -> OutcomeView {
        OutcomeView {
            accepted_message: self.accepted_message.deep_view(),
            trusted: self.trusted.deep_view(),
            untrusted: self.untrusted.deep_view(),
            exception: weighted_groups(self.exception@),
        }
    }
}

/// The validators of the groups at the positions in `order`, one group after
/// the other.
pub open spec fn validators_of(groups: Seq<GroupView>, order: Seq<int>) -> Seq<Seq<u8>>
    decreases order.len(),
{
    if order.len() == 0 {
        Seq::empty()
    } else {
        validators_of(groups, order.drop_last()) + groups[order.last()].validators
    }
}

/// Each group at the positions in `order`, with its share.
pub open spec fn shares_of(groups: Seq<GroupView>, order: Seq<int>) -> Seq<(Seq<Seq<u8>>, nat)> {
    Seq::new(
        order.len(),
        |a: int| (groups[order[a]].validators, groups[order[a]].credibility_weight),
    )
}

/// The outcome for the groups of a round: the first group of the ranking
/// wins if its share reaches `threshold`, and nobody wins otherwise.
pub open spec fn verdict(groups: Seq<GroupView>, rule: TieBreak, threshold: u32) -> OutcomeView
    recommends
        groups.len() > 0,
{
    let order = ranking(shares(groups), rule);
    let top = groups[order[0]];
    if top.credibility_weight >= threshold {
        OutcomeView {
            accepted_message: Some(top.message),
            trusted: top.validators,
            untrusted: validators_of(groups, order.skip(1)),
            exception: Seq::empty(),
        }
    } else {
        OutcomeView {
            accepted_message: None,
            trusted: Seq::empty(),
            untrusted: Seq::empty(),
            exception: shares_of(groups, order),
        }
    }
}

/// The outcome of a round, given the copies, the fingerprint of each, the
/// scores that were reported, the rule for ties and the share that a winner
/// needs.
pub open spec fn resolution(
    copies: Seq<MessageVerifyView>,
    hashes: Seq<Seq<char>>,
    table: Seq<NodeCredibilityView>,
    rule: TieBreak,
    threshold: u32,
) -> OutcomeView
    recommends
        copies.len() > 0,
        hashes.len() == copies.len(),
{
    verdict(groups(ballots(copies, hashes), table), rule, threshold)
}

/// The fingerprints of the messages of `copies`, position by position.
pub open spec fn fingerprints_of(copies: Seq<MessageVerifyView>) -> Seq<Seq<char>> {
    Seq::new(copies.len(), |i: int| fingerprint_of(copies[i].message))
}

/// A message is accepted exactly when the share of some group reaches the
/// threshold, and then it is the message of a group with the largest share:
/// of the one that the rule for ties prefers among these.
pub proof fn lemma_accepted_is_heaviest(groups: Seq<GroupView>, rule: TieBreak, threshold: u32)
    requires
        groups.len() > 0,
    ensures
        verdict(groups, rule, threshold).accepted_message is Some <==> exists|g: int|
            0 <= g < groups.len() && (#[trigger] groups[g]).credibility_weight >= threshold,
        verdict(groups, rule, threshold).accepted_message is Some ==> {
            let top = ranking(shares(groups), rule)[0];
            &&& 0 <= top < groups.len()
            &&& verdict(groups, rule, threshold).accepted_message == Some(groups[top].message)
            &&& verdict(groups, rule, threshold).trusted == groups[top].validators
            &&& forall|g: int|
                0 <= g < groups.len() ==> (#[trigger] groups[g]).credibility_weight
                    <= groups[top].credibility_weight
            &&& forall|g: int|
                0 <= g < groups.len() && (#[trigger] groups[g]).credibility_weight
                    == groups[top].credibility_weight ==> match rule {
                    TieBreak::FirstSeen => top <= g,
                    TieBreak::LastSeen => top >= g,
                }
        },
{
    let weights = shares(groups);
    lemma_top_of_ranking(weights, rule);
    let top = ranking(weights, rule)[0];
    assert(weights[top] == groups[top].credibility_weight);
    assert forall|g: int| 0 <= g < groups.len() implies (#[trigger] groups[g]).credibility_weight
        <= groups[top].credibility_weight && (groups[g].credibility_weight
        == groups[top].credibility_weight ==> match rule {
        TieBreak::FirstSeen => top <= g,
        TieBreak::LastSeen => top >= g,
    }) by {
        assert(weights[g] == groups[g].credibility_weight);
    }
}

/// The shares that a list of groups carries, position by position.
pub open spec fn listed_shares(list: Seq<(Seq<Seq<u8>>, nat)>) -> Seq<nat> {
    Seq::new(list.len(), |g: int| list[g].1)
}

/// The shares of the groups add up to the same when the groups are listed in
/// ranked order.
pub proof fn lemma_ranked_shares_keep_sum(groups: Seq<GroupView>, rule: TieBreak)
    ensures
        seq_sum(listed_shares(shares_of(groups, ranking(shares(groups), rule)))) == seq_sum(
            shares(groups),
        ),
{
    let weights = shares(groups);
    let order = ranking(weights, rule);
    lemma_ranking_exists(weights, rule);
    lemma_ranking_keeps_sum(weights, rule);
    assert(listed_shares(shares_of(groups, order)) =~= ranked(weights, order));
}

/// Where no message is accepted, the shares that the outcome lists, in
/// ranked order, are those of the groups of the round: they never add up to
/// more than the whole, what the groups hold in the order in which they
/// were first seen.
pub proof fn lemma_listed_shares_conserved(
    ballots: Seq<Ballot>,
    table: Seq<NodeCredibilityView>,
    rule: TieBreak,
    threshold: u32,
)
    ensures
        verdict(groups(ballots, table), rule, threshold).accepted_message is None ==> seq_sum(
            listed_shares(verdict(groups(ballots, table), rule, threshold).exception),
        ) == seq_sum(group_weights(ballots, table)) && seq_sum(
            listed_shares(verdict(groups(ballots, table), rule, threshold).exception),
        ) <= PRECISION,
{
    let filed = groups(ballots, table);
    lemma_ranked_shares_keep_sum(filed, rule);
    lemma_weights_conserved(ballots, table);
    assert(shares(filed) =~= group_weights(ballots, table));
}

/// Copies whose messages are equal field by field are filed under the same
/// group.
pub proof fn lemma_equal_messages_share_group(copies: Seq<MessageVerifyView>, i: int, j: int)
    requires
        0 <= i < copies.len(),
        0 <= j < copies.len(),
        copies[i].message == copies[j].message,
    ensures
        group_of(ballots(copies, fingerprints_of(copies)), i) == group_of(
            ballots(copies, fingerprints_of(copies)),
            j,
        ),
{
    lemma_same_group_same_fingerprint(ballots(copies, fingerprints_of(copies)), i, j);
}

/// Two copies whose messages the fingerprint tells apart are filed under the
/// same group exactly when their messages are equal field by field.
pub proof fn lemma_grouping_by_message(copies: Seq<MessageVerifyView>, i: int, j: int)
    requires
        0 <= i < copies.len(),
        0 <= j < copies.len(),
        fingerprint_of(copies[i].message) == fingerprint_of(copies[j].message)
            ==> copies[i].message == copies[j].message,
    ensures
        group_of(ballots(copies, fingerprints_of(copies)), i) == group_of(
            ballots(copies, fingerprints_of(copies)),
            j,
        ) <==> copies[i].message == copies[j].message,
{
    lemma_same_group_same_fingerprint(ballots(copies, fingerprints_of(copies)), i, j);
}

impl Outcome {
    /// What the round hands to whoever asked for it: the accepted message
    /// alone, or nothing.
    pub fn accepted(&self) -> (list: Vec<Message>)
        ensures
            list.deep_view() == match self@.accepted_message {
                Some(message) => seq![message],
                None => Seq::empty(),
            },
    {
        let mut list: Vec<Message> = Vec::new();
        match &self.accepted_message {
            Some(message) => {
                list.push(message.clone());
                assert(list.deep_view() =~= seq![message@]);
            },
            None => {
                assert(list.deep_view() =~= Seq::<MessageView>::empty());
            },
        }
        list
    }
}

/// Decides a round from its groups.
pub fn decide(groups: &Vec<Group>, rule: TieBreak, threshold: u32) -> (outcome: Outcome)
    requires
        groups.len() > 0,
    ensures
        outcome@ == verdict(groups.deep_view(), rule, threshold),
{
    let ghost model = groups.deep_view();
    let order = rank(groups, rule);
    let ghost places = positions(order@);
    assert(places[0] == order[0]);
    let top = order[0];
    assert(model[top as int] == groups[top as int]@);
    if groups[top].credibility.credibility_weight >= threshold {
        let trusted = clone_keys(&groups[top].credibility.validators);
        let mut untrusted: Vec<PublicKey> = Vec::new();
        let mut a: usize = 1;
        assert(untrusted.deep_view() =~= validators_of(model, places.subrange(1, 1)));
        while a < order.len()
            invariant
                1 <= a <= order.len(),
                order.len() == groups.len(),
                model == groups.deep_view(),
                places == positions(order@),
                forall|b: int| 0 <= b < order.len() ==> 0 <= #[trigger] places[b] < groups.len(),
                untrusted.deep_view() == validators_of(model, places.subrange(1, a as int)),
            decreases order.len() - a,
        {
            assert(places[a as int] == order[a as int]);
            let g = order[a];
            assert(model[g as int] == groups[g as int]@);
            append_keys(&mut untrusted, &groups[g].credibility.validators);
            proof {
                let upto = places.subrange(1, a + 1);
                assert(upto.drop_last() =~= places.subrange(1, a as int));
                assert(upto.last() == g);
            }
            a = a + 1;
        }
        assert(places.subrange(1, order.len() as int) =~= places.skip(1));
        let outcome = Outcome {
            accepted_message: Some(groups[top].message.clone()),
            trusted,
            untrusted,
            exception: Vec::new(),
        };
        assert(outcome@.exception =~= Seq::empty());
        outcome
    } else {
        let mut exception: Vec<(Vec<PublicKey>, u32)> = Vec::new();
        let mut a: usize = 0;
        while a < order.len()
            invariant
                a <= order.len(),
                order.len() == groups.len(),
                model == groups.deep_view(),
                places == positions(order@),
                forall|b: int| 0 <= b < order.len() ==> 0 <= #[trigger] places[b] < groups.len(),
                exception.len() == a,
                forall|b: int|
                    0 <= b < a ==> (#[trigger] exception[b]).0.deep_view()
                        == model[places[b]].validators && exception[b].1
                        == model[places[b]].credibility_weight,
            decreases order.len() - a,
        {
            assert(places[a as int] == order[a as int]);
            let g = order[a];
            assert(model[g as int] == groups[g as int]@);
            let members = clone_keys(&groups[g].credibility.validators);
            exception.push((members, groups[g].credibility.credibility_weight));
            a = a + 1;
        }
        let outcome = Outcome {
            accepted_message: None,
            trusted: Vec::new(),
            untrusted: Vec::new(),
            exception,
        };
        assert(outcome@.trusted =~= Seq::empty());
        assert(outcome@.untrusted =~= Seq::empty());
        assert(outcome@.exception =~= shares_of(model, places));
        outcome
    }
}

/// Resolves a round: groups the copies by fingerprint, weighs the groups by
/// the reported credibility of their validators, and decides.
///
/// `hashes` holds the fingerprint of each copy at the same position.
pub fn resolve(
    copies: &Vec<MessageVerify>,
    hashes: &Vec<String>,
    table: &Vec<NodeCredibility>,
    rule: TieBreak,
    threshold: u32,
) -> (outcome: Outcome)
    requires
        copies.len() > 0,
        hashes.len() == copies.len(),
    ensures
        outcome@ == resolution(
            copies.deep_view(),
            hashes.deep_view(),
            table.deep_view(),
            rule,
            threshold,
        ),
{
    let groups = tally(copies, hashes, table);
    proof {
        let all = ballots(copies.deep_view(), hashes.deep_view());
        lemma_fingerprints_cover(all, all[0].fingerprint);
    }
    decide(&groups, rule, threshold)
}

/// The validators that submitted a copy, each once, in the order of their
/// first copy.
pub open spec fn validators(copies: Seq<MessageVerifyView>) -> Seq<Seq<u8>>
    decreases copies.len(),
{
    if copies.len() == 0 {
        Seq::empty()
    } else {
        let earlier = validators(copies.drop_last());
        if earlier.contains(copies.last().validator) {
            earlier
        } else {
            earlier.push(copies.last().validator)
        }
    }
}

/// Every validator that submitted a copy is named once, and nobody else is.
pub proof fn lemma_validators_named_once(copies: Seq<MessageVerifyView>, key: Seq<u8>)
    ensures
        validators(copies).no_duplicates(),
        validators(copies).contains(key) <==> exists|i: int|
            0 <= i < copies.len() && (#[trigger] copies[i]).validator == key,
    decreases copies.len(),
{
    if copies.len() > 0 {
        let rest = copies.drop_last();
        let earlier = validators(rest);
        let now = validators(copies);
        lemma_validators_named_once(rest, key);
        lemma_validators_named_once(rest, copies.last().validator);
        if now.contains(key) {
            let k = choose|k: int| 0 <= k < now.len() && now[k] == key;
            if k < earlier.len() {
                assert(earlier[k] == key);
                let i = choose|i: int| 0 <= i < rest.len() && (#[trigger] rest[i]).validator == key;
                assert(copies[i].validator == key);
            } else {
                assert(copies[copies.len() - 1].validator == key);
            }
        }
        if exists|i: int| 0 <= i < copies.len() && (#[trigger] copies[i]).validator == key {
            let i = choose|i: int| 0 <= i < copies.len() && (#[trigger] copies[i]).validator == key;
            if i < rest.len() {
                assert(rest[i].validator == key);
                let k = choose|k: int| 0 <= k < earlier.len() && earlier[k] == key;
                assert(now[k] == key);
            } else {
                if earlier.contains(key) {
                    let k = choose|k: int| 0 <= k < earlier.len() && earlier[k] == key;
                    assert(now[k] == key);
                } else {
                    assert(now[earlier.len() as int] == key);
                }
            }
        }
    }
}

/// What a round asks of the credibility store before it can be resolved.
#[derive(Debug)]
pub struct CredibilityQuery {
    /// The validators whose scores are needed.
    pub nodes: Vec<PublicKey>,
    /// The share that a group needs to win this round.
    pub threshold: u32,
}

/// What came back from the credibility store.
#[derive(Debug)]
pub enum CredibilityReply {
    /// The call did not succeed.
    Failed,
    /// The call succeeded with a payload that could not be read.
    Malformed,
    /// The scores that the store reported.
    Scores(Vec<NodeCredibility>),
}

/// Why a round was abandoned.
#[derive(Debug, Clone, Copy, PartialEq, Eq, Structural)]
pub enum VerifyError {
    /// The scores could not be fetched.
    TransportFailure,
    /// The scores could not be read.
    MalformedResponse,
}

/// The settings of the verification service.
#[derive(Debug)]
pub struct Contract {
    node_ev_address: String,
    cross_contract_id: String,
    credibility_weight_threshold: u32,
    tie_break: TieBreak,
}

/// The settings of the verification service as plain values.
pub struct ContractView {
    pub node_ev_address: Seq<char>,
    pub cross_contract_id: Seq<char>,
    pub credibility_weight_threshold: u32,
    pub tie_break: TieBreak,
}

impl View for Contract {
    type V = ContractView;

    closed spec fn view(&self) -> ContractView {
        ContractView {
            node_ev_address: self.node_ev_address@,
            cross_contract_id: self.cross_contract_id@,
            credibility_weight_threshold: self.credibility_weight_threshold,
            tie_break: self.tie_break,
        }
    }
}

/// The first step of a round.
pub trait MsgVerify {
    /// Opens a round for `msgs`. `percentage` is the share, in parts of ten
    /// thousand, that the winning copies must hold.
    fn msg_verify(&mut self, msgs: &Vec<MessageVerify>, percentage: Option<u32>) -> (query:
        CredibilityQuery)
    ;
}

impl Contract {
    /// A service that prefers, among groups with equal shares, the one whose
    /// fingerprint was seen first.
    pub fn init(
        cross_contract_id: String,
        node_eva_addr: String,
        credibility_weight_threshold: u32,
    ) -> (contract: Contract)
        ensures
            contract@ == (ContractView {
                node_ev_address: node_eva_addr@,
                cross_contract_id: cross_contract_id@,
                credibility_weight_threshold,
                tie_break: TieBreak::FirstSeen,
            }),
    {
        Contract {
            cross_contract_id,
            node_ev_address: node_eva_addr,
            credibility_weight_threshold,
            tie_break: TieBreak::FirstSeen,
        }
    }

    /// The rule for groups with equal shares.
    pub fn tie_break(&self) -> (rule: TieBreak)
        ensures
            rule == self@.tie_break,
    {
        self.tie_break
    }

    /// Sets the rule for groups with equal shares.
    pub fn set_tie_break(&mut self, rule: TieBreak)
        ensures
            final(self)@ == (ContractView { tie_break: rule, ..old(self)@ }),
    {
        self.tie_break = rule;
    }

    /// The account of the credibility store.
    pub fn node_ev_address(&self) -> (account: &String)
        ensures
            account@ == self@.node_ev_address,
    {
        &self.node_ev_address
    }

    /// The account on whose behalf messages are verified.
    pub fn cross_contract_id(&self) -> (account: &String)
        ensures
            account@ == self@.cross_contract_id,
    {
        &self.cross_contract_id
    }

    /// The share that a group needs to win where a round names none.
    pub fn credibility_weight_threshold(&self) -> (threshold: u32)
        ensures
            threshold == self@.credibility_weight_threshold,
    {
        self.credibility_weight_threshold
    }

    /// The second step of a round: resolves it from the reply of the
    /// credibility store, or abandons it where the reply is no list of
    /// scores.
    pub fn credibility_callback(
        &self,
        msgs: Vec<MessageVerify>,
        threshold: u32,
        reply: CredibilityReply,
    ) -> (result: Result<Outcome, VerifyError>)
        requires
            msgs.len() > 0,
        ensures
            match reply {
                CredibilityReply::Failed => result == Err::<Outcome, VerifyError>(
                    VerifyError::TransportFailure,
                ),
                CredibilityReply::Malformed => result == Err::<Outcome, VerifyError>(
                    VerifyError::MalformedResponse,
                ),
                CredibilityReply::Scores(table) => result matches Ok(outcome) && outcome@
                    == resolution(
                    msgs.deep_view(),
                    fingerprints_of(msgs.deep_view()),
                    table.deep_view(),
                    self@.tie_break,
                    threshold,
                ),
            },
    {
        match reply {
            CredibilityReply::Failed => Err(VerifyError::TransportFailure),
            CredibilityReply::Malformed => Err(VerifyError::MalformedResponse),
            CredibilityReply::Scores(table) => {
                let mut hashes: Vec<String> = Vec::new();
                let mut i: usize = 0;
                while i < msgs.len()
                    invariant
                        i <= msgs.len(),
                        hashes.len() == i,
                        forall|j: int|
                            0 <= j < i ==> (#[trigger] hashes[j])@ == fingerprint_of(
                                msgs[j].message@,
                            ),
                    decreases msgs.len() - i,
                {
                    hashes.push(msgs[i].message.to_hash());
                    i = i + 1;
                }
                assert(hashes.deep_view() =~= fingerprints_of(msgs.deep_view()));
                Ok(resolve(&msgs, &hashes, &table, self.tie_break, threshold))
            },
        }
    }

    /// Hands the result of a round on as it is.
    pub fn result_callback(&mut self, msg: Vec<Message>) -> (result: Vec<Message>)
        ensures
            result == msg,
            *final(self) == *old(self),
    {
        msg
    }
}

impl MsgVerify for Contract {
    /// The query names every validator of `msgs` once, in the order of
    /// first appearance, and the share that decides the round: `percentage`
    /// where one is given, the configured share otherwise.
    fn msg_verify(&mut self, msgs: &Vec<MessageVerify>, percentage: Option<u32>) -> (query:
        CredibilityQuery)
        ensures
            query.nodes.deep_view() == validators(msgs.deep_view()),
            query.threshold == match percentage {
                Some(share) => share,
                None => old(self)@.credibility_weight_threshold,
            },
            *final(self) == *old(self),
    {
        let mut nodes: Vec<PublicKey> = Vec::new();
        let mut i: usize = 0;
        assert(msgs.deep_view().take(0) =~= Seq::<MessageVerifyView>::empty());
        assert(nodes.deep_view() =~= validators(msgs.deep_view().take(0)));
        while i < msgs.len()
            invariant
                i <= msgs.len(),
                nodes.deep_view() == validators(msgs.deep_view().take(i as int)),
            decreases msgs.len() - i,
        {
            let ghost before = nodes.deep_view();
            proof {
                let upto = msgs.deep_view().take(i + 1);
                assert(upto.drop_last() =~= msgs.deep_view().take(i as int));
                assert(upto.last().validator == msgs[i as int].validator@);
            }
            if !holds_key(&nodes, &msgs[i].validator) {
                nodes.push(msgs[i].validator.clone());
                assert(nodes.deep_view() =~= before.push(msgs[i as int].validator@));
            }
            i = i + 1;
        }
        assert(msgs.deep_view().take(msgs.len() as int) =~= msgs.deep_view());
        let threshold = match percentage {
            Some(share) => share,
            None => self.credibility_weight_threshold,
        };
        CredibilityQuery { nodes, threshold }
    }
}

} // verus!
