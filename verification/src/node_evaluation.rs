//! The evaluation of validators: who is registered, which score each holds,
//! who counts as trustworthy, and how a round changes that.

use crate::credibility::{reported, weighted_groups, MAX_CONFIDENCE, PRECISION};
use crate::identity::{append_keys, PublicKey};
use crate::lottery::{draw, drawn, lemma_drawn_len, lemma_roster, remaining, roster};
use crate::reputation::{next_score, step, Standing};
use crate::selector::{
    lemma_selection_within_ratios, select, selection, within_ratios, Selection,
};
use crate::store::{
    holds, keys_distinct, lemma_slot_unique, lemma_with_score, lemma_without, score_of, slot_of,
    with_score, without, CredibilityStore,
};
use vstd::prelude::*;

pub use crate::credibility::{NodeCredibility, NodeCredibilityView};

verus! {

/// Why a call was turned down.
#[derive(Debug, Clone, Copy, PartialEq, Eq, Structural)]
pub enum EvaluationError {
    /// Only the verification service may report the outcome of a round.
    Unauthorized,
    /// The validator is registered already.
    AlreadyRegistered,
}

/// The state of the evaluation service.
#[derive(Debug)]
pub struct Contract {
    cross_contract_id: String,
    vc_contract_id: String,
    initial_credibility_value: u32,
    max_trustworthy_ratio: u32,
    min_trustworthy_ratio: u32,
    min_selected_threshold: u32,
    trustworthy_threshold: u32,
    node_credibility: CredibilityStore,
    trustworthy_validators: CredibilityStore,
}

/// The state of the evaluation service as plain values.
pub struct ContractView {
    pub cross_contract_id: Seq<char>,
    pub vc_contract_id: Seq<char>,
    pub initial_credibility_value: u32,
    pub max_trustworthy_ratio: u32,
    pub min_trustworthy_ratio: u32,
    pub min_selected_threshold: u32,
    pub trustworthy_threshold: u32,
    pub node_credibility: Seq<NodeCredibilityView>,
    pub trustworthy_validators: Seq<NodeCredibilityView>,
}

impl View for Contract {
    type V = ContractView;

    closed spec fn view(&self) -> ContractView {
        ContractView {
            cross_contract_id: self.cross_contract_id@,
            vc_contract_id: self.vc_contract_id@,
            initial_credibility_value: self.initial_credibility_value,
            max_trustworthy_ratio: self.max_trustworthy_ratio,
            min_trustworthy_ratio: self.min_trustworthy_ratio,
            min_selected_threshold: self.min_selected_threshold,
            trustworthy_threshold: self.trustworthy_threshold,
            node_credibility: self.node_credibility@,
            trustworthy_validators: self.trustworthy_validators@,
        }
    }
}

/// Whether a state is in order: no validator is registered twice or listed
/// twice as trustworthy, and every trustworthy validator is registered with
/// the score it is listed with, which is no less than the floor.
pub open spec fn well_formed(state: ContractView) -> bool {
    &&& keys_distinct(state.node_credibility)
    &&& keys_distinct(state.trustworthy_validators)
    &&& forall|key: Seq<u8>| #[trigger]
        holds(state.trustworthy_validators, key) ==> {
            &&& score_of(state.trustworthy_validators, key) >= state.min_selected_threshold
            &&& holds(state.node_credibility, key)
            &&& score_of(state.node_credibility, key) == score_of(
                state.trustworthy_validators,
                key,
            )
        }
}

/// The state after `value` was stored as the score of `key`: the validator
/// is listed as trustworthy exactly if the score is no less than the floor.
pub open spec fn stored(state: ContractView, key: Seq<u8>, value: u32) -> ContractView {
    ContractView {
        node_credibility: with_score(state.node_credibility, key, value),
        trustworthy_validators: if value < state.min_selected_threshold {
            without(state.trustworthy_validators, key)
        } else {
            with_score(state.trustworthy_validators, key, value)
        },
        ..state
    }
}

/// The state after `key` registered.
pub open spec fn registered(state: ContractView, key: Seq<u8>) -> ContractView {
    ContractView {
        node_credibility: with_score(
            state.node_credibility,
            key,
            state.initial_credibility_value,
        ),
        ..state
    }
}

/// The state after `key` left.
pub open spec fn unregistered(state: ContractView, key: Seq<u8>) -> ContractView {
    ContractView {
        node_credibility: without(state.node_credibility, key),
        trustworthy_validators: without(state.trustworthy_validators, key),
        ..state
    }
}

/// The state after each of `keys`, one after the other, took the step of
/// `standing`.
pub open spec fn after_standing(
    state: ContractView,
    keys: Seq<Seq<u8>>,
    standing: Standing,
    weight: nat,
) -> ContractView
    decreases keys.len(),
{
    if keys.len() == 0 {
        state
    } else {
        let before = after_standing(state, keys.drop_last(), standing, weight);
        let score = score_of(before.node_credibility, keys.last());
        stored(before, keys.last(), next_score(standing, score as int, weight as int) as u32)
    }
}

/// The state after each group of a round without a winner, one after the
/// other, took the step for its share.
pub open spec fn after_exceptions(state: ContractView, groups: Seq<(Seq<Seq<u8>>, nat)>) -> ContractView
    decreases groups.len(),
{
    if groups.len() == 0 {
        state
    } else {
        after_standing(
            after_exceptions(state, groups.drop_last()),
            groups.last().0,
            Standing::Exception,
            groups.last().1,
        )
    }
}

/// The state after a round: first the trusted validators step, then the
/// untrusted, then the groups of a round without a winner.
pub open spec fn updated(
    state: ContractView,
    trusted: Seq<Seq<u8>>,
    untrusted: Seq<Seq<u8>>,
    exception: Seq<(Seq<Seq<u8>>, nat)>,
) -> ContractView {
    after_exceptions(
        after_standing(
            after_standing(state, trusted, Standing::Trusted, 0),
            untrusted,
            Standing::Untrusted,
            0,
        ),
        exception,
    )
}

/// What the store reports for `nodes`: each with its score, and with zero
/// where it is not registered.
pub open spec fn credibility_report(entries: Seq<NodeCredibilityView>, nodes: Seq<Seq<u8>>) -> Seq<
    NodeCredibilityView,
> {
    Seq::new(
        nodes.len(),
        |i: int|
            NodeCredibilityView {
                validator: nodes[i],
                credibility_value: score_of(entries, nodes[i]),
            },
    )
}

/// The entries from `from_index` on, `limit` of them at most.
pub open spec fn page(entries: Seq<NodeCredibilityView>, from_index: u64, limit: u64) -> Seq<
    NodeCredibilityView,
> {
    if from_index >= entries.len() {
        Seq::empty()
    } else if from_index + limit >= entries.len() {
        entries.subrange(from_index as int, entries.len() as int)
    } else {
        entries.subrange(from_index as int, from_index + limit)
    }
}

/// The duty roster that `numbers` draw in `state`: the plan says how many
/// places go to trustworthy validators, drawn by score, and how many to
/// validators drawn from all that are registered.
pub open spec fn round_roster(state: ContractView, numbers: Seq<u64>) -> Seq<Seq<u8>> {
    let plan = selection(
        state.trustworthy_validators,
        state.trustworthy_threshold,
        state.min_trustworthy_ratio,
        state.max_trustworthy_ratio,
    );
    roster(
        state.trustworthy_validators,
        state.node_credibility,
        plan.credibility_selected_num,
        plan.random_selected_num,
        numbers,
    )
}

/// Whether the score of `key` lies within the range of scores.
pub open spec fn bounded(state: ContractView, key: Seq<u8>) -> bool {
    score_of(state.node_credibility, key) <= MAX_CONFIDENCE
}

/// Whether some group of `groups` names `key`.
pub open spec fn named_in(groups: Seq<(Seq<Seq<u8>>, nat)>, key: Seq<u8>) -> bool {
    exists|g: int| 0 <= g < groups.len() && (#[trigger] groups[g]).0.contains(key)
}

/// Whether no validator is named twice in `groups`, neither by one group
/// nor by two.
pub open spec fn named_once(groups: Seq<(Seq<Seq<u8>>, nat)>) -> bool {
    &&& forall|g: int| 0 <= g < groups.len() ==> (#[trigger] groups[g]).0.no_duplicates()
    &&& forall|g: int, h: int, key: Seq<u8>|
        0 <= g < h < groups.len() && #[trigger] groups[g].0.contains(key) ==> !#[trigger] groups[h].0.contains(
            key,
        )
}

/// Storing a score keeps a state in order.
pub proof fn lemma_stored_well_formed(state: ContractView, key: Seq<u8>, value: u32)
    requires
        well_formed(state),
    ensures
        well_formed(stored(state, key, value)),
{
    let after = stored(state, key, value);
    lemma_with_score(state.node_credibility, key, value);
    lemma_with_score(state.trustworthy_validators, key, value);
    lemma_without(state.trustworthy_validators, key);
    assert forall|other: Seq<u8>| #[trigger]
        holds(after.trustworthy_validators, other) implies score_of(
        after.trustworthy_validators,
        other,
    ) >= after.min_selected_threshold && holds(after.node_credibility, other) && score_of(
        after.node_credibility,
        other,
    ) == score_of(after.trustworthy_validators, other) by {
        if other != key {
            assert(holds(state.trustworthy_validators, other));
            assert(score_of(after.trustworthy_validators, other) == score_of(
                state.trustworthy_validators,
                other,
            ));
            assert(holds(after.node_credibility, other) == holds(state.node_credibility, other));
            assert(score_of(after.node_credibility, other) == score_of(
                state.node_credibility,
                other,
            ));
        }
    }
}

/// What the evaluation service does for validators and for the
/// verification service.
pub trait NodeEvaluation {
    /// Whether the state is in order.
    spec fn wf(&self) -> bool;

    /// Plans the next duty roster.
    fn select_validators(&self) -> (plan: Selection)
        requires
            self.wf(),
    ;

    /// Changes the scores after a round. `caller` is the account that makes
    /// the call.
    fn update_nodes(
        &mut self,
        caller: &String,
        trusted: Vec<PublicKey>,
        untrusted: Vec<PublicKey>,
        exception: Vec<(Vec<PublicKey>, u32)>,
    ) -> (result: Result<(), EvaluationError>)
        requires
            old(self).wf(),
        ensures
            final(self).wf(),
    ;

    /// Reports the scores of `nodes`.
    fn get_nodes_credibility(&self, nodes: Vec<PublicKey>) -> (report: Vec<NodeCredibility>)
        requires
            self.wf(),
    ;

    /// Registers the validator `pk`.
    fn register_node(&mut self, pk: PublicKey) -> (result: Result<(), EvaluationError>)
        requires
            old(self).wf(),
        ensures
            final(self).wf(),
    ;

    /// Takes the validator `pk` off the register.
    fn unregister_node(&mut self, pk: PublicKey)
        requires
            old(self).wf(),
        ensures
            final(self).wf(),
    ;

    /// Sets the score that a validator starts with.
    fn set_initial_credibility(&mut self, value: u32)
        requires
            old(self).wf(),
        ensures
            final(self).wf(),
    ;
}

impl Contract {
    /// A service without validators.
    pub fn inite(
        cross_contract_id: String,
        vc_contract_id: String,
        initial_credibility_value: u32,
        max_trustworthy_ratio: u32,
        min_trustworthy_ratio: u32,
        min_selected_threshold: u32,
        trustworthy_threshold: u32,
    ) -> (contract: Contract)
        ensures
            contract.wf(),
            contract@ == (ContractView {
                cross_contract_id: cross_contract_id@,
                vc_contract_id: vc_contract_id@,
                initial_credibility_value,
                max_trustworthy_ratio,
                min_trustworthy_ratio,
                min_selected_threshold,
                trustworthy_threshold,
                node_credibility: Seq::empty(),
                trustworthy_validators: Seq::empty(),
            }),
    {
        Contract {
            cross_contract_id,
            vc_contract_id,
            initial_credibility_value,
            max_trustworthy_ratio,
            min_trustworthy_ratio,
            min_selected_threshold,
            trustworthy_threshold,
            node_credibility: CredibilityStore::new(),
            trustworthy_validators: CredibilityStore::new(),
        }
    }

    /// A service in the given state, where that state is in order.
    pub fn restore(
        cross_contract_id: String,
        vc_contract_id: String,
        initial_credibility_value: u32,
        max_trustworthy_ratio: u32,
        min_trustworthy_ratio: u32,
        min_selected_threshold: u32,
        trustworthy_threshold: u32,
        node_credibility: Vec<NodeCredibility>,
        trustworthy_validators: Vec<NodeCredibility>,
    ) -> (contract: Option<Contract>)
        ensures
            contract is Some <==> well_formed(
                ContractView {
                    cross_contract_id: cross_contract_id@,
                    vc_contract_id: vc_contract_id@,
                    initial_credibility_value,
                    max_trustworthy_ratio,
                    min_trustworthy_ratio,
                    min_selected_threshold,
                    trustworthy_threshold,
                    node_credibility: node_credibility.deep_view(),
                    trustworthy_validators: trustworthy_validators.deep_view(),
                },
            ),
            contract matches Some(made) ==> made.wf() && made@ == (ContractView {
                cross_contract_id: cross_contract_id@,
                vc_contract_id: vc_contract_id@,
                initial_credibility_value,
                max_trustworthy_ratio,
                min_trustworthy_ratio,
                min_selected_threshold,
                trustworthy_threshold,
                node_credibility: node_credibility.deep_view(),
                trustworthy_validators: trustworthy_validators.deep_view(),
            }),
    {
        let ghost scores = node_credibility.deep_view();
        let ghost listed = trustworthy_validators.deep_view();
        let registered = match CredibilityStore::from_entries(node_credibility) {
            Some(store) => store,
            None => {
                return None;
            },
        };
        let trustworthy = match CredibilityStore::from_entries(trustworthy_validators) {
            Some(store) => store,
            None => {
                return None;
            },
        };
        let mut i: usize = 0;
        while i < trustworthy.len()
            invariant
                i <= trustworthy@.len(),
                registered.wf(),
                trustworthy.wf(),
                registered@ == scores,
                trustworthy@ == listed,
                scores == node_credibility.deep_view(),
                listed == trustworthy_validators.deep_view(),
                forall|k: int|
                    0 <= k < i ==> {
                        &&& (#[trigger] listed[k]).credibility_value >= min_selected_threshold
                        &&& holds(scores, listed[k].validator)
                        &&& score_of(scores, listed[k].validator) == listed[k].credibility_value
                    },
            decreases trustworthy@.len() - i,
        {
            let entry = trustworthy.entry(i);
            proof {
                lemma_slot_unique(listed, listed[i as int].validator, i as int);
            }
            let fits = match registered.get(&entry.validator) {
                Some(score) => score == entry.credibility_value && score >= min_selected_threshold,
                None => false,
            };
            if !fits {
                proof {
                    let key = listed[i as int].validator;
                    let state = ContractView {
                        cross_contract_id: cross_contract_id@,
                        vc_contract_id: vc_contract_id@,
                        initial_credibility_value,
                        max_trustworthy_ratio,
                        min_trustworthy_ratio,
                        min_selected_threshold,
                        trustworthy_threshold,
                        node_credibility: scores,
                        trustworthy_validators: listed,
                    };
                    assert(holds(state.trustworthy_validators, key));
                    assert(score_of(listed, key) == listed[i as int].credibility_value);
                    assert(!well_formed(state));
                }
                return None;
            }
            i = i + 1;
        }
        proof {
            assert forall|key: Seq<u8>| #[trigger] holds(listed, key) implies score_of(listed, key)
                >= min_selected_threshold && holds(scores, key) && score_of(scores, key)
                == score_of(listed, key) by {
                let k = slot_of(listed, key);
                assert(listed[k].validator == key);
            }
        }
        Some(
            Contract {
                cross_contract_id,
                vc_contract_id,
                initial_credibility_value,
                max_trustworthy_ratio,
                min_trustworthy_ratio,
                min_selected_threshold,
                trustworthy_threshold,
                node_credibility: registered,
                trustworthy_validators: trustworthy,
            },
        )
    }

    /// The account on whose behalf messages are relayed.
    pub fn cross_contract_id(&self) -> (account: &String)
        ensures
            account@ == self@.cross_contract_id,
    {
        &self.cross_contract_id
    }

    /// The account of the verification service.
    pub fn vc_contract_id(&self) -> (account: &String)
        ensures
            account@ == self@.vc_contract_id,
    {
        &self.vc_contract_id
    }

    /// The score that a validator starts with.
    pub fn initial_credibility_value(&self) -> (value: u32)
        ensures
            value == self@.initial_credibility_value,
    {
        self.initial_credibility_value
    }

    /// The largest part of a roster that may go to trustworthy validators.
    pub fn max_trustworthy_ratio(&self) -> (ratio: u32)
        ensures
            ratio == self@.max_trustworthy_ratio,
    {
        self.max_trustworthy_ratio
    }

    /// The smallest part of a roster that goes to trustworthy validators.
    pub fn min_trustworthy_ratio(&self) -> (ratio: u32)
        ensures
            ratio == self@.min_trustworthy_ratio,
    {
        self.min_trustworthy_ratio
    }

    /// The score from which on a validator counts as trustworthy.
    pub fn min_selected_threshold(&self) -> (floor: u32)
        ensures
            floor == self@.min_selected_threshold,
    {
        self.min_selected_threshold
    }

    /// The chance above which a trustworthy validator counts for the roster.
    pub fn trustworthy_threshold(&self) -> (threshold: u32)
        ensures
            threshold == self@.trustworthy_threshold,
    {
        self.trustworthy_threshold
    }

    /// The trustworthy validators with the scores they are listed with.
    pub fn trustworthy_validators(&self) -> (listed: Vec<NodeCredibility>)
        ensures
            listed.deep_view() == self@.trustworthy_validators,
    {
        self.trustworthy_validators.entries()
    }

    /// The registered validators with their scores, `limit` of them at most,
    /// from the one at `from_index` on in the order of the store.
    pub fn get_node(&self, from_index: u64, limit: u64) -> (nodes: Vec<NodeCredibility>)
        ensures
            nodes.deep_view() == page(self@.node_credibility, from_index, limit),
    {
        let mut nodes: Vec<NodeCredibility> = Vec::new();
        let count = self.node_credibility.len();
        if from_index >= count as u64 {
            assert(nodes.deep_view() =~= Seq::<NodeCredibilityView>::empty());
            return nodes;
        }
        let start = from_index as usize;
        let end = if limit >= (count - start) as u64 {
            count
        } else {
            start + limit as usize
        };
        let mut index = start;
        assert(nodes.deep_view() =~= self@.node_credibility.subrange(start as int, start as int));
        while index < end
            invariant
                start <= index <= end <= count,
                count == self@.node_credibility.len(),
                nodes.deep_view() == self@.node_credibility.subrange(start as int, index as int),
            decreases end - index,
        {
            let ghost before = nodes.deep_view();
            nodes.push(self.node_credibility.entry(index).clone());
            assert(nodes.deep_view() =~= before.push(self@.node_credibility[index as int]));
            assert(self@.node_credibility.subrange(start as int, index + 1)
                =~= self@.node_credibility.subrange(start as int, index as int).push(
                self@.node_credibility[index as int],
            ));
            index = index + 1;
        }
        nodes
    }

    /// Whether `pk` is listed as trustworthy.
    pub fn is_trustworthy(&self, pk: &PublicKey) -> (listed: bool)
        requires
            self.wf(),
        ensures
            listed == holds(self@.trustworthy_validators, pk@),
            listed ==> score_of(self@.node_credibility, pk@) >= self@.min_selected_threshold,
    {
        self.trustworthy_validators.get(pk).is_some()
    }

    /// Draws the next duty roster with `numbers`, which the caller brings
    /// from a source of chance: one number fills one place.
    pub fn select_round_validators(&self, numbers: &Vec<u64>) -> (chosen: Vec<PublicKey>)
        requires
            self.wf(),
        ensures
            chosen.deep_view() == round_roster(self@, numbers@),
    {
        let plan = select(
            &self.trustworthy_validators,
            self.trustworthy_threshold,
            self.min_trustworthy_ratio,
            self.max_trustworthy_ratio,
        );
        proof {
            assert(numbers@.skip(0) =~= numbers@);
            lemma_drawn_len(
                self@.trustworthy_validators,
                true,
                numbers@,
                plan.credibility_selected_num as nat,
            );
        }
        let mut chosen = draw(
            self.trustworthy_validators.entries(),
            true,
            numbers,
            0,
            plan.credibility_selected_num,
        );
        let others = remaining(&self.node_credibility.entries(), &chosen);
        let second = draw(others, false, numbers, chosen.len(), plan.random_selected_num);
        append_keys(&mut chosen, &second);
        chosen
    }

    /// Stores `value` as the score of `pk` and lists the validator as
    /// trustworthy, or strikes it from that list, as the floor demands.
    fn update_storage_date(&mut self, pk: PublicKey, value: u32)
        requires
            old(self).wf(),
        ensures
            final(self).wf(),
            final(self)@ == stored(old(self)@, pk@, value),
    {
        proof {
            lemma_stored_well_formed(self@, pk@, value);
        }
        if value < self.min_selected_threshold {
            self.trustworthy_validators.remove(&pk);
        } else {
            self.trustworthy_validators.insert(pk.clone(), value);
        }
        self.node_credibility.insert(pk, value);
    }

    /// Lets each of `keys`, one after the other, take the step of
    /// `standing`.
    fn apply(&mut self, keys: &Vec<PublicKey>, standing: Standing, weight: u32)
        requires
            old(self).wf(),
        ensures
            final(self).wf(),
            final(self)@ == after_standing(old(self)@, keys.deep_view(), standing, weight as nat),
    {
        let ghost start = self@;
        let mut i: usize = 0;
        assert(keys.deep_view().take(0) =~= Seq::<Seq<u8>>::empty());
        while i < keys.len()
            invariant
                i <= keys.len(),
                self.wf(),
                self@ == after_standing(
                    start,
                    keys.deep_view().take(i as int),
                    standing,
                    weight as nat,
                ),
            decreases keys.len() - i,
        {
            let score = match self.node_credibility.get(&keys[i]) {
                Some(value) => value,
                None => 0,
            };
            let next = step(standing, score, weight);
            proof {
                let upto = keys.deep_view().take(i + 1);
                assert(upto.drop_last() =~= keys.deep_view().take(i as int));
                assert(upto.last() == keys[i as int]@);
            }
            self.update_storage_date(keys[i].clone(), next);
            i = i + 1;
        }
        assert(keys.deep_view().take(keys.len() as int) =~= keys.deep_view());
    }
}

impl NodeEvaluation for Contract {
    open spec fn wf(&self) -> bool {
        well_formed(self@)
    }

    /// The plan is made from the list of trustworthy validators and the
    /// ratios of the service.
    fn select_validators(&self) -> (plan: Selection)
        ensures
            plan@ == selection(
                self@.trustworthy_validators,
                self@.trustworthy_threshold,
                self@.min_trustworthy_ratio,
                self@.max_trustworthy_ratio,
            ),
    {
        select(
            &self.trustworthy_validators,
            self.trustworthy_threshold,
            self.min_trustworthy_ratio,
            self.max_trustworthy_ratio,
        )
    }

    /// Only the verification service is heard: from any other caller the
    /// call is turned down and nothing changes.
    fn update_nodes(
        &mut self,
        caller: &String,
        trusted: Vec<PublicKey>,
        untrusted: Vec<PublicKey>,
        exception: Vec<(Vec<PublicKey>, u32)>,
    ) -> (result: Result<(), EvaluationError>)
        ensures
            caller@ != old(self)@.vc_contract_id ==> result == Err::<(), EvaluationError>(
                EvaluationError::Unauthorized,
            ) && final(self)@ == old(self)@,
            caller@ == old(self)@.vc_contract_id ==> result == Ok::<(), EvaluationError>(())
                && final(self)@ == updated(
                old(self)@,
                trusted.deep_view(),
                untrusted.deep_view(),
                weighted_groups(exception@),
            ),
    {
        if !(*caller == self.vc_contract_id) {
            return Err(EvaluationError::Unauthorized);
        }
        self.apply(&trusted, Standing::Trusted, 0);
        self.apply(&untrusted, Standing::Untrusted, 0);
        let ghost start = self@;
        let mut i: usize = 0;
        assert(weighted_groups(exception@).take(0) =~= Seq::<(Seq<Seq<u8>>, nat)>::empty());
        while i < exception.len()
            invariant
                i <= exception.len(),
                self.wf(),
                self@ == after_exceptions(start, weighted_groups(exception@).take(i as int)),
            decreases exception.len() - i,
        {
            proof {
                let upto = weighted_groups(exception@).take(i + 1);
                assert(upto.drop_last() =~= weighted_groups(exception@).take(i as int));
                assert(upto.last() == (
                    exception[i as int].0.deep_view(),
                    exception[i as int].1 as nat,
                ));
            }
            self.apply(&exception[i].0, Standing::Exception, exception[i].1);
            i = i + 1;
        }
        assert(weighted_groups(exception@).take(exception.len() as int) =~= weighted_groups(
            exception@,
        ));
        Ok(())
    }

    /// A validator that is not registered is reported with zero.
    fn get_nodes_credibility(&self, nodes: Vec<PublicKey>) -> (report: Vec<NodeCredibility>)
        ensures
            report.deep_view() == credibility_report(self@.node_credibility, nodes.deep_view()),
    {
        let mut report: Vec<NodeCredibility> = Vec::new();
        let mut i: usize = 0;
        while i < nodes.len()
            invariant
                i <= nodes.len(),
                self.wf(),
                report.len() == i,
                forall|k: int|
                    0 <= k < i ==> (#[trigger] report[k])@ == credibility_report(
                        self@.node_credibility,
                        nodes.deep_view(),
                    )[k],
            decreases nodes.len() - i,
        {
            let score = match self.node_credibility.get(&nodes[i]) {
                Some(value) => value,
                None => 0,
            };
            report.push(NodeCredibility { validator: nodes[i].clone(), credibility_value: score });
            i = i + 1;
        }
        assert(report.deep_view() =~= credibility_report(
            self@.node_credibility,
            nodes.deep_view(),
        ));
        report
    }

    /// A validator that is registered already is turned down and keeps its
    /// score; a new one starts with the initial score.
    fn register_node(&mut self, pk: PublicKey) -> (result: Result<(), EvaluationError>)
        ensures
            holds(old(self)@.node_credibility, pk@) ==> result == Err::<(), EvaluationError>(
                EvaluationError::AlreadyRegistered,
            ) && final(self)@ == old(self)@,
            !holds(old(self)@.node_credibility, pk@) ==> result == Ok::<(), EvaluationError>(())
                && final(self)@ == registered(old(self)@, pk@),
    {
        match self.node_credibility.get(&pk) {
            Some(_) => Err(EvaluationError::AlreadyRegistered),
            None => {
                proof {
                    lemma_registered_well_formed(self@, pk@);
                }
                self.node_credibility.insert(pk, self.initial_credibility_value);
                Ok(())
            },
        }
    }

    /// The validator loses its score and its place among the trustworthy.
    fn unregister_node(&mut self, pk: PublicKey)
        ensures
            final(self)@ == unregistered(old(self)@, pk@),
    {
        proof {
            lemma_unregistered_well_formed(self@, pk@);
        }
        self.node_credibility.remove(&pk);
        self.trustworthy_validators.remove(&pk);
    }

    fn set_initial_credibility(&mut self, value: u32)
        ensures
            final(self)@ == (ContractView { initial_credibility_value: value, ..old(self)@ }),
    {
        self.initial_credibility_value = value;
    }
}

/// Registering a new validator keeps a state in order.
pub proof fn lemma_registered_well_formed(state: ContractView, key: Seq<u8>)
    requires
        well_formed(state),
        !holds(state.node_credibility, key),
    ensures
        well_formed(registered(state, key)),
{
    let after = registered(state, key);
    lemma_with_score(state.node_credibility, key, state.initial_credibility_value);
    assert forall|other: Seq<u8>| #[trigger]
        holds(after.trustworthy_validators, other) implies holds(after.node_credibility, other)
        && score_of(after.node_credibility, other) == score_of(
        after.trustworthy_validators,
        other,
    ) by {
        assert(other != key);
        assert(holds(after.node_credibility, other) == holds(state.node_credibility, other));
        assert(score_of(after.node_credibility, other) == score_of(
            state.node_credibility,
            other,
        ));
    }
}

/// A validator that leaves keeps a state in order.
pub proof fn lemma_unregistered_well_formed(state: ContractView, key: Seq<u8>)
    requires
        well_formed(state),
    ensures
        well_formed(unregistered(state, key)),
{
    let after = unregistered(state, key);
    lemma_without(state.node_credibility, key);
    lemma_without(state.trustworthy_validators, key);
    assert forall|other: Seq<u8>| #[trigger]
        holds(after.trustworthy_validators, other) implies score_of(
        after.trustworthy_validators,
        other,
    ) >= after.min_selected_threshold && holds(after.node_credibility, other) && score_of(
        after.node_credibility,
        other,
    ) == score_of(after.trustworthy_validators, other) by {
        assert(other != key);
        assert(holds(state.trustworthy_validators, other));
        assert(score_of(after.trustworthy_validators, other) == score_of(
            state.trustworthy_validators,
            other,
        ));
        assert(holds(after.node_credibility, other) == holds(state.node_credibility, other));
        assert(score_of(after.node_credibility, other) == score_of(
            state.node_credibility,
            other,
        ));
    }
}

/// Steps keep a state in order.
pub proof fn lemma_after_standing_well_formed(
    state: ContractView,
    keys: Seq<Seq<u8>>,
    standing: Standing,
    weight: nat,
)
    requires
        well_formed(state),
    ensures
        well_formed(after_standing(state, keys, standing, weight)),
    decreases keys.len(),
{
    if keys.len() > 0 {
        lemma_after_standing_well_formed(state, keys.drop_last(), standing, weight);
        let before = after_standing(state, keys.drop_last(), standing, weight);
        let score = score_of(before.node_credibility, keys.last());
        lemma_stored_well_formed(
            before,
            keys.last(),
            next_score(standing, score as int, weight as int) as u32,
        );
    }
}

/// The steps of a round without a winner keep a state in order.
pub proof fn lemma_after_exceptions_well_formed(
    state: ContractView,
    groups: Seq<(Seq<Seq<u8>>, nat)>,
)
    requires
        well_formed(state),
    ensures
        well_formed(after_exceptions(state, groups)),
    decreases groups.len(),
{
    if groups.len() > 0 {
        lemma_after_exceptions_well_formed(state, groups.drop_last());
        lemma_after_standing_well_formed(
            after_exceptions(state, groups.drop_last()),
            groups.last().0,
            Standing::Exception,
            groups.last().1,
        );
    }
}

/// A round keeps a state in order.
pub proof fn lemma_updated_well_formed(
    state: ContractView,
    trusted: Seq<Seq<u8>>,
    untrusted: Seq<Seq<u8>>,
    exception: Seq<(Seq<Seq<u8>>, nat)>,
)
    requires
        well_formed(state),
    ensures
        well_formed(updated(state, trusted, untrusted, exception)),
{
    let first = after_standing(state, trusted, Standing::Trusted, 0);
    let second = after_standing(first, untrusted, Standing::Untrusted, 0);
    lemma_after_standing_well_formed(state, trusted, Standing::Trusted, 0);
    lemma_after_standing_well_formed(first, untrusted, Standing::Untrusted, 0);
    lemma_after_exceptions_well_formed(second, exception);
}

/// After the validators in `keys` took their steps, the score of each of
/// them lies within the range, and so does every score that did before.
pub proof fn lemma_steps_keep_scores_in_range(
    state: ContractView,
    keys: Seq<Seq<u8>>,
    standing: Standing,
    weight: nat,
    key: Seq<u8>,
)
    requires
        well_formed(state),
        bounded(state, key) || keys.contains(key),
    ensures
        bounded(after_standing(state, keys, standing, weight), key),
    decreases keys.len(),
{
    if keys.len() > 0 {
        let rest = keys.drop_last();
        let before = after_standing(state, rest, standing, weight);
        let score = score_of(before.node_credibility, keys.last());
        let value = next_score(standing, score as int, weight as int) as u32;
        lemma_after_standing_well_formed(state, rest, standing, weight);
        lemma_with_score(before.node_credibility, keys.last(), value);
        if keys.last() != key {
            if keys.contains(key) {
                let i = choose|i: int| 0 <= i < keys.len() && keys[i] == key;
                assert(rest[i] == key);
            }
            lemma_steps_keep_scores_in_range(state, rest, standing, weight, key);
        }
    }
}

/// After the groups of a round without a winner took their steps, the score
/// of each validator that a group names lies within the range, and so does
/// every score that did before.
pub proof fn lemma_exceptions_keep_scores_in_range(
    state: ContractView,
    groups: Seq<(Seq<Seq<u8>>, nat)>,
    key: Seq<u8>,
)
    requires
        well_formed(state),
        bounded(state, key) || named_in(groups, key),
    ensures
        bounded(after_exceptions(state, groups), key),
    decreases groups.len(),
{
    if groups.len() > 0 {
        let rest = groups.drop_last();
        let before = after_exceptions(state, rest);
        lemma_after_exceptions_well_formed(state, rest);
        if named_in(groups, key) && !groups.last().0.contains(key) {
            let g = choose|g: int| 0 <= g < groups.len() && (#[trigger] groups[g]).0.contains(key);
            assert(rest[g].0.contains(key));
        }
        if bounded(state, key) || named_in(rest, key) {
            lemma_exceptions_keep_scores_in_range(state, rest, key);
        }
        lemma_steps_keep_scores_in_range(
            before,
            groups.last().0,
            Standing::Exception,
            groups.last().1,
            key,
        );
    }
}

/// A round keeps a state in order. After it, the score of every validator
/// that the round names lies within the range of scores, and so does every
/// score that did before.
pub proof fn lemma_round_keeps_scores_in_range(
    state: ContractView,
    trusted: Seq<Seq<u8>>,
    untrusted: Seq<Seq<u8>>,
    exception: Seq<(Seq<Seq<u8>>, nat)>,
    key: Seq<u8>,
)
    requires
        well_formed(state),
        bounded(state, key) || trusted.contains(key) || untrusted.contains(key) || named_in(
            exception,
            key,
        ),
    ensures
        well_formed(updated(state, trusted, untrusted, exception)),
        bounded(updated(state, trusted, untrusted, exception), key),
{
    let first = after_standing(state, trusted, Standing::Trusted, 0);
    let second = after_standing(first, untrusted, Standing::Untrusted, 0);
    lemma_updated_well_formed(state, trusted, untrusted, exception);
    lemma_after_standing_well_formed(state, trusted, Standing::Trusted, 0);
    lemma_after_standing_well_formed(first, untrusted, Standing::Untrusted, 0);
    if bounded(state, key) || trusted.contains(key) {
        lemma_steps_keep_scores_in_range(state, trusted, Standing::Trusted, 0, key);
    }
    if bounded(first, key) || untrusted.contains(key) {
        lemma_steps_keep_scores_in_range(first, untrusted, Standing::Untrusted, 0, key);
    }
    lemma_exceptions_keep_scores_in_range(second, exception, key);
}

/// Where no validator is named twice, each named validator takes one step
/// from the score it had, and the others keep theirs.
pub proof fn lemma_each_steps_once(
    state: ContractView,
    keys: Seq<Seq<u8>>,
    standing: Standing,
    weight: nat,
    key: Seq<u8>,
)
    requires
        well_formed(state),
        keys.no_duplicates(),
    ensures
        score_of(after_standing(state, keys, standing, weight).node_credibility, key) == if keys.contains(
            key,
        ) {
            next_score(standing, score_of(state.node_credibility, key) as int, weight as int)
        } else {
            score_of(state.node_credibility, key) as int
        },
    decreases keys.len(),
{
    if keys.len() > 0 {
        let rest = keys.drop_last();
        let before = after_standing(state, rest, standing, weight);
        let score = score_of(before.node_credibility, keys.last());
        let value = next_score(standing, score as int, weight as int) as u32;
        lemma_after_standing_well_formed(state, rest, standing, weight);
        lemma_with_score(before.node_credibility, keys.last(), value);
        lemma_each_steps_once(state, rest, standing, weight, key);
        lemma_each_steps_once(state, rest, standing, weight, keys.last());
        if rest.contains(keys.last()) {
            let i = choose|i: int| 0 <= i < rest.len() && rest[i] == keys.last();
            assert(keys[i] == keys[keys.len() - 1]);
        }
        if keys.last() == key {
            assert(keys[keys.len() - 1] == key);
        } else {
            if keys.contains(key) {
                let i = choose|i: int| 0 <= i < keys.len() && keys[i] == key;
                assert(rest[i] == key);
            }
            if rest.contains(key) {
                let i = choose|i: int| 0 <= i < rest.len() && rest[i] == key;
                assert(keys[i] == key);
            }
        }
    }
}

/// Where no validator is named twice, each validator that a group names
/// takes one step for the share of that group from the score it had, and
/// the others keep theirs.
pub proof fn lemma_each_group_steps_once(
    state: ContractView,
    groups: Seq<(Seq<Seq<u8>>, nat)>,
    key: Seq<u8>,
)
    requires
        well_formed(state),
        named_once(groups),
    ensures
        forall|g: int|
            0 <= g < groups.len() && (#[trigger] groups[g]).0.contains(key) ==> score_of(
                after_exceptions(state, groups).node_credibility,
                key,
            ) == next_score(
                Standing::Exception,
                score_of(state.node_credibility, key) as int,
                groups[g].1 as int,
            ),
        !named_in(groups, key) ==> score_of(after_exceptions(state, groups).node_credibility, key)
            == score_of(state.node_credibility, key),
    decreases groups.len(),
{
    if groups.len() > 0 {
        let rest = groups.drop_last();
        let last = groups.last();
        let before = after_exceptions(state, rest);
        assert(named_once(rest)) by {
            assert forall|g: int| 0 <= g < rest.len() implies (#[trigger] rest[g]).0.no_duplicates() by {
                assert(rest[g] == groups[g]);
            }
            assert forall|g: int, h: int, key: Seq<u8>|
                0 <= g < h < rest.len() && #[trigger] rest[g].0.contains(
                    key,
                ) implies !#[trigger] rest[h].0.contains(key) by {
                assert(rest[g] == groups[g] && rest[h] == groups[h]);
                assert(groups[g].0.contains(key));
            }
        }
        lemma_each_group_steps_once(state, rest, key);
        lemma_after_exceptions_well_formed(state, rest);
        assert(groups[groups.len() - 1] == last);
        lemma_each_steps_once(before, last.0, Standing::Exception, last.1, key);
        if last.0.contains(key) {
            assert(!named_in(rest, key)) by {
                if named_in(rest, key) {
                    let g = choose|g: int| 0 <= g < rest.len() && (#[trigger] rest[g]).0.contains(
                        key,
                    );
                    assert(rest[g] == groups[g]);
                }
            }
            assert forall|g: int|
                0 <= g < groups.len() && (#[trigger] groups[g]).0.contains(key) implies g
                == groups.len() - 1 by {
            }
        } else {
            assert forall|g: int|
                0 <= g < groups.len() && (#[trigger] groups[g]).0.contains(key) implies score_of(
                after_exceptions(state, groups).node_credibility,
                key,
            ) == next_score(
                Standing::Exception,
                score_of(state.node_credibility, key) as int,
                groups[g].1 as int,
            ) by {
                assert(rest[g] == groups[g]);
            }
            if named_in(rest, key) {
                let g = choose|g: int| 0 <= g < rest.len() && (#[trigger] rest[g]).0.contains(key);
                assert(groups[g].0.contains(key));
            }
        }
    }
}

/// Where a round names no validator twice, every validator it names takes
/// exactly one step from the score it had: that of its standing, and for
/// the share of its group where nobody won. All others keep their scores.
pub proof fn lemma_round_steps_once(
    state: ContractView,
    trusted: Seq<Seq<u8>>,
    untrusted: Seq<Seq<u8>>,
    exception: Seq<(Seq<Seq<u8>>, nat)>,
    key: Seq<u8>,
)
    requires
        well_formed(state),
        trusted.no_duplicates(),
        untrusted.no_duplicates(),
        named_once(exception),
        !(trusted.contains(key) && untrusted.contains(key)),
        trusted.contains(key) || untrusted.contains(key) ==> !named_in(exception, key),
    ensures
        trusted.contains(key) ==> score_of(
            updated(state, trusted, untrusted, exception).node_credibility,
            key,
        ) == next_score(Standing::Trusted, score_of(state.node_credibility, key) as int, 0),
        untrusted.contains(key) ==> score_of(
            updated(state, trusted, untrusted, exception).node_credibility,
            key,
        ) == next_score(Standing::Untrusted, score_of(state.node_credibility, key) as int, 0),
        forall|g: int|
            0 <= g < exception.len() && (#[trigger] exception[g]).0.contains(key) ==> score_of(
                updated(state, trusted, untrusted, exception).node_credibility,
                key,
            ) == next_score(
                Standing::Exception,
                score_of(state.node_credibility, key) as int,
                exception[g].1 as int,
            ),
        !trusted.contains(key) && !untrusted.contains(key) && !named_in(exception, key)
            ==> score_of(updated(state, trusted, untrusted, exception).node_credibility, key)
            == score_of(state.node_credibility, key),
{
    let first = after_standing(state, trusted, Standing::Trusted, 0);
    let second = after_standing(first, untrusted, Standing::Untrusted, 0);
    lemma_after_standing_well_formed(state, trusted, Standing::Trusted, 0);
    lemma_after_standing_well_formed(first, untrusted, Standing::Untrusted, 0);
    lemma_each_steps_once(state, trusted, Standing::Trusted, 0, key);
    lemma_each_steps_once(first, untrusted, Standing::Untrusted, 0, key);
    lemma_each_group_steps_once(second, exception, key);
    if named_in(exception, key) {
        let g = choose|g: int| 0 <= g < exception.len() && (#[trigger] exception[g]).0.contains(
            key,
        );
        assert(!trusted.contains(key) && !untrusted.contains(key));
    }
}

/// Where there is a number for every place, the roster of a state in order
/// has as many places as there are trustworthy validators, nobody stands on
/// it twice, everybody on it is registered, and trustworthy validators hold
/// the first places. These places always make the smallest ratio of the
/// service, and they stay within the largest whenever some number of places
/// lies within both.
pub proof fn lemma_round_roster(state: ContractView, numbers: Seq<u64>)
    requires
        well_formed(state),
        numbers.len() >= state.trustworthy_validators.len(),
    ensures
        round_roster(state, numbers).no_duplicates(),
        round_roster(state, numbers).len() == state.trustworthy_validators.len(),
        forall|i: int|
            0 <= i < round_roster(state, numbers).len() ==> holds(
                state.node_credibility,
                #[trigger] round_roster(state, numbers)[i],
            ),
        forall|i: int|
            0 <= i < selection(
                state.trustworthy_validators,
                state.trustworthy_threshold,
                state.min_trustworthy_ratio,
                state.max_trustworthy_ratio,
            ).credibility_selected_num ==> holds(
                state.trustworthy_validators,
                #[trigger] round_roster(state, numbers)[i],
            ),
        state.min_trustworthy_ratio <= PRECISION ==> state.trustworthy_validators.len()
            * state.min_trustworthy_ratio <= PRECISION * selection(
            state.trustworthy_validators,
            state.trustworthy_threshold,
            state.min_trustworthy_ratio,
            state.max_trustworthy_ratio,
        ).credibility_selected_num,
        state.min_trustworthy_ratio <= state.max_trustworthy_ratio <= PRECISION && (exists|
            places: nat,
        |
            within_ratios(
                state.trustworthy_validators.len(),
                state.min_trustworthy_ratio as nat,
                state.max_trustworthy_ratio as nat,
                places,
            )) ==> within_ratios(
            state.trustworthy_validators.len(),
            state.min_trustworthy_ratio as nat,
            state.max_trustworthy_ratio as nat,
            selection(
                state.trustworthy_validators,
                state.trustworthy_threshold,
                state.min_trustworthy_ratio,
                state.max_trustworthy_ratio,
            ).credibility_selected_num,
        ),
{
    let listed = state.trustworthy_validators;
    let plan = selection(
        listed,
        state.trustworthy_threshold,
        state.min_trustworthy_ratio,
        state.max_trustworthy_ratio,
    );
    let all = round_roster(state, numbers);
    lemma_selection_within_ratios(
        listed,
        state.trustworthy_threshold,
        state.min_trustworthy_ratio,
        state.max_trustworthy_ratio,
    );
    lemma_roster(
        listed,
        state.node_credibility,
        plan.credibility_selected_num,
        plan.random_selected_num,
        numbers,
    );
    assert forall|i: int| 0 <= i < all.len() implies holds(
        state.node_credibility,
        #[trigger] all[i],
    ) by {
        if i < drawn(listed, true, numbers, plan.credibility_selected_num).len() {
            assert(holds(listed, all[i]));
        }
    }
}

/// A validator that is not registered is reported with zero.
pub proof fn lemma_unregistered_reports_zero(
    entries: Seq<NodeCredibilityView>,
    nodes: Seq<Seq<u8>>,
    i: int,
)
    requires
        0 <= i < nodes.len(),
        !holds(entries, nodes[i]),
    ensures
        credibility_report(entries, nodes)[i].validator == nodes[i],
        credibility_report(entries, nodes)[i].credibility_value == 0,
{
}

/// Whoever looks a validator up in a report finds the score that the store
/// holds for it, and zero for a validator that the report does not name.
pub proof fn lemma_report_read_back(
    entries: Seq<NodeCredibilityView>,
    nodes: Seq<Seq<u8>>,
    key: Seq<u8>,
)
    ensures
        reported(credibility_report(entries, nodes), key) == if nodes.contains(key) {
            score_of(entries, key)
        } else {
            0
        },
    decreases nodes.len(),
{
    if nodes.len() > 0 {
        let rest = nodes.drop_last();
        lemma_report_read_back(entries, rest, key);
        assert(credibility_report(entries, nodes).drop_last() =~= credibility_report(
            entries,
            rest,
        ));
        if nodes.last() == key {
            assert(nodes[nodes.len() - 1] == key);
        } else {
            if nodes.contains(key) {
                let i = choose|i: int| 0 <= i < nodes.len() && nodes[i] == key;
                assert(rest[i] == key);
            }
            if rest.contains(key) {
                let i = choose|i: int| 0 <= i < rest.len() && rest[i] == key;
                assert(nodes[i] == key);
            }
        }
    }
}

} // verus!
