//! Grouping the copies of a round by fingerprint, and the share of the
//! submitted credibility that each group holds.

use crate::credibility::{
    reported, reported_credibility, NodeCredibility, NodeCredibilityView, PRECISION,
};
use crate::identity::{holds_key, PublicKey};
use crate::message::{Message, MessageVerify, MessageVerifyView, MessageView};
use crate::shares::{
    divides_evenly, lemma_seq_sum_bounds, lemma_seq_sum_update, lemma_shares_conserved,
    lemma_weight_fraction_bounds, seq_sum, shares_in, weight_fraction,
};
use vstd::prelude::*;

verus! {

/// One copy as the tally reads it: who submitted it, the fingerprint it is
/// filed under, and what it says.
pub struct Ballot {
    pub validator: Seq<u8>,
    pub fingerprint: Seq<char>,
    pub message: MessageView,
}

/// The copies of a round, each with the fingerprint at the same position.
pub open spec fn ballots(copies: Seq<MessageVerifyView>, hashes: Seq<Seq<char>>) -> Seq<Ballot> {
    Seq::new(
        copies.len(),
        |i: int|
            Ballot {
                validator: copies[i].validator,
                fingerprint: hashes[i],
                message: copies[i].message,
            },
    )
}

/// The fingerprints that occur, each once, in the order in which they were
/// first seen.
pub open spec fn fingerprints(ballots: Seq<Ballot>) -> Seq<Seq<char>>
    decreases ballots.len(),
{
    if ballots.len() == 0 {
        Seq::empty()
    } else {
        let earlier = fingerprints(ballots.drop_last());
        if earlier.contains(ballots.last().fingerprint) {
            earlier
        } else {
            earlier.push(ballots.last().fingerprint)
        }
    }
}

/// The validators that submitted a copy with `fingerprint`, each once, in the
/// order of their first such copy.
pub open spec fn members(ballots: Seq<Ballot>, fingerprint: Seq<char>) -> Seq<Seq<u8>>
    decreases ballots.len(),
{
    if ballots.len() == 0 {
        Seq::empty()
    } else {
        let earlier = members(ballots.drop_last(), fingerprint);
        let last = ballots.last();
        if last.fingerprint == fingerprint && !earlier.contains(last.validator) {
            earlier.push(last.validator)
        } else {
            earlier
        }
    }
}

/// Whether the copy at `i` is the first with `fingerprint`.
pub open spec fn is_first_copy(ballots: Seq<Ballot>, fingerprint: Seq<char>, i: int) -> bool {
    &&& 0 <= i < ballots.len()
    &&& ballots[i].fingerprint == fingerprint
    &&& forall|j: int| 0 <= j < i ==> ballots[j].fingerprint != fingerprint
}

/// The position of the first copy with `fingerprint`.
pub open spec fn first_copy(ballots: Seq<Ballot>, fingerprint: Seq<char>) -> int {
    choose|i: int| is_first_copy(ballots, fingerprint, i)
}

/// The credibility that `table` reports for `keys`, added up.
pub open spec fn credibility_sum(keys: Seq<Seq<u8>>, table: Seq<NodeCredibilityView>) -> nat
    decreases keys.len(),
{
    if keys.len() == 0 {
        0
    } else {
        credibility_sum(keys.drop_last(), table) + reported(table, keys.last()) as nat
    }
}

/// The credibility of each group, in the order of `fingerprints`.
pub open spec fn group_sums(ballots: Seq<Ballot>, table: Seq<NodeCredibilityView>) -> Seq<nat> {
    let prints = fingerprints(ballots);
    Seq::new(prints.len(), |g: int| credibility_sum(members(ballots, prints[g]), table))
}

/// The credibility of all groups together.
pub open spec fn total_credibility(ballots: Seq<Ballot>, table: Seq<NodeCredibilityView>) -> nat {
    seq_sum(group_sums(ballots, table))
}

/// The share of each group, in the order of `fingerprints`.
pub open spec fn group_weights(ballots: Seq<Ballot>, table: Seq<NodeCredibilityView>) -> Seq<nat> {
    let sums = group_sums(ballots, table);
    Seq::new(sums.len(), |g: int| weight_fraction(sums[g], seq_sum(sums)))
}

/// A group of copies that agree.
pub struct GroupView {
    pub fingerprint: Seq<char>,
    pub message: MessageView,
    pub validators: Seq<Seq<u8>>,
    pub group_credibility_value: nat,
    pub credibility_weight: nat,
}

/// The groups of a round, in the order in which their fingerprints were first
/// seen. A group carries the message of its first copy.
pub open spec fn groups(ballots: Seq<Ballot>, table: Seq<NodeCredibilityView>) -> Seq<GroupView> {
    let prints = fingerprints(ballots);
    Seq::new(
        prints.len(),
        |g: int|
            GroupView {
                fingerprint: prints[g],
                message: ballots[first_copy(ballots, prints[g])].message,
                validators: members(ballots, prints[g]),
                group_credibility_value: group_sums(ballots, table)[g],
                credibility_weight: group_weights(ballots, table)[g],
            },
    )
}

/// What a group weighs: the credibility of its validators, its share of the
/// round in parts of `PRECISION`, and the validators themselves.
#[derive(Debug)]
pub struct GroupCredibility {
    pub group_credibility_value: u128,
    pub credibility_weight: u32,
    pub validators: Vec<PublicKey>,
}

/// A group of copies that agree, with the message of the first of them.
#[derive(Debug)]
pub struct Group {
    pub fingerprint: String,
    pub message: Message,
    pub credibility: GroupCredibility,
}

impl View for Group {
    type V = GroupView;

    open spec fn view(&self) -> GroupView {
        GroupView {
            fingerprint: self.fingerprint@,
            message: self.message@,
            validators: self.credibility.validators.deep_view(),
            group_credibility_value: self.credibility.group_credibility_value as nat,
            credibility_weight: self.credibility.credibility_weight as nat,
        }
    }
}

impl DeepView for Group {
    type V = GroupView;

    open spec fn deep_view(&self) -> GroupView {
        self@
    }
}

/// A fingerprint is listed exactly when some copy carries it.
pub proof fn lemma_fingerprints_cover(ballots: Seq<Ballot>, fingerprint: Seq<char>)
    ensures
        fingerprints(ballots).contains(fingerprint) <==> exists|i: int|
            0 <= i < ballots.len() && #[trigger] ballots[i].fingerprint == fingerprint,
    decreases ballots.len(),
{
    if ballots.len() > 0 {
        let rest = ballots.drop_last();
        lemma_fingerprints_cover(rest, fingerprint);
        let earlier = fingerprints(rest);
        if fingerprints(ballots).contains(fingerprint) {
            if earlier.contains(fingerprint) {
                let i = choose|i: int|
                    0 <= i < rest.len() && #[trigger] rest[i].fingerprint == fingerprint;
                assert(ballots[i].fingerprint == fingerprint);
            } else {
                assert(earlier.push(ballots.last().fingerprint).contains(fingerprint));
                let k = choose|k: int|
                    0 <= k < fingerprints(ballots).len() && fingerprints(ballots)[k] == fingerprint;
                if k < earlier.len() {
                    assert(earlier[k] == fingerprint);
                }
                assert(ballots[ballots.len() - 1].fingerprint == fingerprint);
            }
        }
        if exists|i: int| 0 <= i < ballots.len() && #[trigger] ballots[i].fingerprint == fingerprint {
            let i = choose|i: int|
                0 <= i < ballots.len() && #[trigger] ballots[i].fingerprint == fingerprint;
            if i < rest.len() {
                assert(rest[i].fingerprint == fingerprint);
                assert(earlier.contains(fingerprint));
                let k = choose|k: int| 0 <= k < earlier.len() && earlier[k] == fingerprint;
                assert(fingerprints(ballots)[k] == fingerprint);
            } else {
                if earlier.contains(fingerprint) {
                } else {
                    assert(fingerprints(ballots)[earlier.len() as int] == fingerprint);
                }
            }
        }
    }
}

/// No fingerprint is listed twice.
pub proof fn lemma_fingerprints_distinct(ballots: Seq<Ballot>)
    ensures
        fingerprints(ballots).no_duplicates(),
    decreases ballots.len(),
{
    if ballots.len() > 0 {
        lemma_fingerprints_distinct(ballots.drop_last());
    }
}

/// A validator is listed for a fingerprint exactly when it submitted a copy
/// with that fingerprint.
pub proof fn lemma_members_cover(ballots: Seq<Ballot>, fingerprint: Seq<char>, validator: Seq<u8>)
    ensures
        members(ballots, fingerprint).contains(validator) <==> exists|i: int|
            0 <= i < ballots.len() && #[trigger] ballots[i].fingerprint == fingerprint
                && ballots[i].validator == validator,
    decreases ballots.len(),
{
    if ballots.len() > 0 {
        let rest = ballots.drop_last();
        let last = ballots.last();
        lemma_members_cover(rest, fingerprint, validator);
        let earlier = members(rest, fingerprint);
        let now = members(ballots, fingerprint);
        if now.contains(validator) {
            if earlier.contains(validator) {
                let i = choose|i: int|
                    0 <= i < rest.len() && #[trigger] rest[i].fingerprint == fingerprint
                        && rest[i].validator == validator;
                assert(ballots[i].fingerprint == fingerprint && ballots[i].validator == validator);
            } else {
                let k = choose|k: int| 0 <= k < now.len() && now[k] == validator;
                if k < earlier.len() {
                    assert(earlier[k] == validator);
                }
                let i = ballots.len() - 1;
                assert(ballots[i].fingerprint == fingerprint && ballots[i].validator == validator);
            }
        }
        if exists|i: int|
            0 <= i < ballots.len() && #[trigger] ballots[i].fingerprint == fingerprint
                && ballots[i].validator == validator {
            let i = choose|i: int|
                0 <= i < ballots.len() && #[trigger] ballots[i].fingerprint == fingerprint
                    && ballots[i].validator == validator;
            if i < rest.len() {
                assert(rest[i].fingerprint == fingerprint && rest[i].validator == validator);
                let k = choose|k: int| 0 <= k < earlier.len() && earlier[k] == validator;
                assert(now[k] == validator);
            } else {
                if earlier.contains(validator) {
                    let k = choose|k: int| 0 <= k < earlier.len() && earlier[k] == validator;
                    assert(now[k] == validator);
                } else {
                    assert(now[earlier.len() as int] == validator);
                }
            }
        }
    }
}

/// No validator is listed twice for one fingerprint.
pub proof fn lemma_members_distinct(ballots: Seq<Ballot>, fingerprint: Seq<char>)
    ensures
        members(ballots, fingerprint).no_duplicates(),
    decreases ballots.len(),
{
    if ballots.len() > 0 {
        lemma_members_distinct(ballots.drop_last(), fingerprint);
    }
}

/// A fingerprint that no copy carries has no validators.
pub proof fn lemma_members_of_absent(ballots: Seq<Ballot>, fingerprint: Seq<char>)
    requires
        !fingerprints(ballots).contains(fingerprint),
    ensures
        members(ballots, fingerprint).len() == 0,
    decreases ballots.len(),
{
    if ballots.len() > 0 {
        let earlier = fingerprints(ballots.drop_last());
        if earlier.contains(fingerprint) {
            let k = choose|k: int| 0 <= k < earlier.len() && earlier[k] == fingerprint;
            assert(fingerprints(ballots)[k] == fingerprint);
        }
        if ballots.last().fingerprint == fingerprint {
            if earlier.contains(fingerprint) {
            } else {
                assert(fingerprints(ballots)[earlier.len() as int] == fingerprint);
            }
        }
        lemma_members_of_absent(ballots.drop_last(), fingerprint);
    }
}

/// The first copy with a fingerprint is found at one position only.
pub proof fn lemma_first_copy_unique(ballots: Seq<Ballot>, fingerprint: Seq<char>, i: int)
    requires
        is_first_copy(ballots, fingerprint, i),
    ensures
        first_copy(ballots, fingerprint) == i,
{
    let j = first_copy(ballots, fingerprint);
    assert(is_first_copy(ballots, fingerprint, j));
    if j < i {
        assert(ballots[j].fingerprint != fingerprint);
    }
    if i < j {
        assert(ballots[i].fingerprint != fingerprint);
    }
}

/// The position, among the groups, of the group that the copy at `i` is
/// filed under.
pub open spec fn group_of(ballots: Seq<Ballot>, i: int) -> int {
    choose|g: int|
        0 <= g < fingerprints(ballots).len() && fingerprints(ballots)[g] == ballots[i].fingerprint
}

/// Every copy is filed under exactly one group, the one with its
/// fingerprint, and its validator is among the validators of that group.
pub proof fn lemma_one_group_for_each_copy(
    ballots: Seq<Ballot>,
    table: Seq<NodeCredibilityView>,
    i: int,
)
    requires
        0 <= i < ballots.len(),
    ensures
        0 <= group_of(ballots, i) < groups(ballots, table).len(),
        groups(ballots, table)[group_of(ballots, i)].fingerprint == ballots[i].fingerprint,
        groups(ballots, table)[group_of(ballots, i)].validators.contains(ballots[i].validator),
        forall|g: int|
            0 <= g < groups(ballots, table).len() && #[trigger] groups(ballots, table)[g].fingerprint
                == ballots[i].fingerprint ==> g == group_of(ballots, i),
{
    let print = ballots[i].fingerprint;
    lemma_fingerprints_cover(ballots, print);
    lemma_fingerprints_distinct(ballots);
    lemma_members_cover(ballots, print, ballots[i].validator);
    let g = group_of(ballots, i);
    assert(fingerprints(ballots).contains(print));
    assert(0 <= g < fingerprints(ballots).len() && fingerprints(ballots)[g] == print);
    assert forall|h: int|
        0 <= h < groups(ballots, table).len() && #[trigger] groups(ballots, table)[h].fingerprint
            == print implies h == g by {
        assert(fingerprints(ballots)[h] == print);
    }
}

/// Two copies are filed under the same group exactly when their
/// fingerprints agree.
pub proof fn lemma_same_group_same_fingerprint(ballots: Seq<Ballot>, i: int, j: int)
    requires
        0 <= i < ballots.len(),
        0 <= j < ballots.len(),
    ensures
        group_of(ballots, i) == group_of(ballots, j) <==> ballots[i].fingerprint
            == ballots[j].fingerprint,
{
    lemma_fingerprints_cover(ballots, ballots[i].fingerprint);
    lemma_fingerprints_cover(ballots, ballots[j].fingerprint);
    assert(fingerprints(ballots).contains(ballots[i].fingerprint));
    assert(fingerprints(ballots).contains(ballots[j].fingerprint));
}

/// A copy that repeats an earlier one, with the same validator and the same
/// fingerprint, changes no group: the validator's credibility counts once.
pub proof fn lemma_repeated_copy_counts_once(
    ballots: Seq<Ballot>,
    table: Seq<NodeCredibilityView>,
    copy: Ballot,
    i: int,
)
    requires
        0 <= i < ballots.len(),
        ballots[i].validator == copy.validator,
        ballots[i].fingerprint == copy.fingerprint,
    ensures
        groups(ballots.push(copy), table) == groups(ballots, table),
        total_credibility(ballots.push(copy), table) == total_credibility(ballots, table),
{
    let more = ballots.push(copy);
    assert(more.drop_last() =~= ballots);
    lemma_fingerprints_cover(ballots, copy.fingerprint);
    lemma_members_cover(ballots, copy.fingerprint, copy.validator);
    assert(fingerprints(more) == fingerprints(ballots));
    assert forall|print: Seq<char>| members(more, print) == members(ballots, print) by {
    }
    assert(group_sums(more, table) =~= group_sums(ballots, table));
    assert(group_weights(more, table) =~= group_weights(ballots, table));
    assert forall|g: int| 0 <= g < fingerprints(ballots).len() implies first_copy(
        more,
        fingerprints(ballots)[g],
    ) == first_copy(ballots, fingerprints(ballots)[g]) by {
        let print = fingerprints(ballots)[g];
        lemma_fingerprints_cover(ballots, print);
        lemma_first_copy_exists(ballots, print);
        let k = first_copy(ballots, print);
        assert(is_first_copy(more, print, k)) by {
            assert forall|j: int| 0 <= j < k implies more[j].fingerprint != print by {
                assert(more[j] == ballots[j]);
            }
        }
        lemma_first_copy_unique(more, print, k);
        assert(more[k] == ballots[k]);
    }
    assert forall|g: int| 0 <= g < fingerprints(ballots).len() implies groups(more, table)[g]
        == groups(ballots, table)[g] by {
        let k = first_copy(ballots, fingerprints(ballots)[g]);
        assert(first_copy(more, fingerprints(ballots)[g]) == k);
        lemma_first_copy_exists(ballots, fingerprints(ballots)[g]);
        assert(more[k].message == ballots[k].message);
    }
    assert(groups(more, table) =~= groups(ballots, table));
}

/// A fingerprint that some copy carries has a first copy.
pub proof fn lemma_first_copy_exists(ballots: Seq<Ballot>, fingerprint: Seq<char>)
    requires
        fingerprints(ballots).contains(fingerprint),
    ensures
        is_first_copy(ballots, fingerprint, first_copy(ballots, fingerprint)),
    decreases ballots.len(),
{
    lemma_fingerprints_cover(ballots, fingerprint);
    if ballots.len() > 0 {
        let rest = ballots.drop_last();
        if fingerprints(rest).contains(fingerprint) {
            lemma_first_copy_exists(rest, fingerprint);
            let k = first_copy(rest, fingerprint);
            assert(is_first_copy(ballots, fingerprint, k)) by {
                assert forall|j: int| 0 <= j < k implies ballots[j].fingerprint != fingerprint by {
                    assert(rest[j] == ballots[j]);
                }
            }
        } else {
            lemma_fingerprints_cover(rest, fingerprint);
            let k = ballots.len() - 1;
            assert(is_first_copy(ballots, fingerprint, k)) by {
                assert forall|j: int| 0 <= j < k implies ballots[j].fingerprint != fingerprint by {
                    assert(rest[j] == ballots[j]);
                }
                let w = choose|w: int|
                    0 <= w < ballots.len() && #[trigger] ballots[w].fingerprint == fingerprint;
                if w < k {
                    assert(rest[w].fingerprint == fingerprint);
                }
            }
        }
    }
}

/// Whether every validator submitted all its copies under one fingerprint.
pub open spec fn one_voice_each(ballots: Seq<Ballot>) -> bool {
    forall|i: int, j: int|
        0 <= i < ballots.len() && 0 <= j < ballots.len() && (#[trigger] ballots[i]).validator == (
        #[trigger] ballots[j]).validator ==> ballots[i].fingerprint == ballots[j].fingerprint
}

/// Whether no validator is listed twice in `groups`, neither in one group
/// nor in two.
pub open spec fn apart(groups: Seq<GroupView>) -> bool {
    &&& forall|g: int| 0 <= g < groups.len() ==> (#[trigger] groups[g]).validators.no_duplicates()
    &&& forall|g: int, h: int, key: Seq<u8>|
        0 <= g < groups.len() && 0 <= h < groups.len() && g != h
            && #[trigger] groups[g].validators.contains(key)
            ==> !#[trigger] groups[h].validators.contains(key)
}

/// Where every validator submitted under one fingerprint, it is listed in
/// one group, and there once.
pub proof fn lemma_groups_apart(ballots: Seq<Ballot>, table: Seq<NodeCredibilityView>)
    requires
        one_voice_each(ballots),
    ensures
        apart(groups(ballots, table)),
{
    let all = groups(ballots, table);
    let prints = fingerprints(ballots);
    lemma_fingerprints_distinct(ballots);
    assert forall|g: int| 0 <= g < all.len() implies (#[trigger] all[g]).validators.no_duplicates() by {
        lemma_members_distinct(ballots, prints[g]);
    }
    assert forall|g: int, h: int, key: Seq<u8>|
        0 <= g < all.len() && 0 <= h < all.len() && g != h && #[trigger] all[g].validators.contains(
            key,
        ) implies !#[trigger] all[h].validators.contains(key) by {
        if all[h].validators.contains(key) {
            lemma_members_cover(ballots, prints[g], key);
            lemma_members_cover(ballots, prints[h], key);
            let i = choose|i: int|
                0 <= i < ballots.len() && #[trigger] ballots[i].fingerprint == prints[g]
                    && ballots[i].validator == key;
            let j = choose|j: int|
                0 <= j < ballots.len() && #[trigger] ballots[j].fingerprint == prints[h]
                    && ballots[j].validator == key;
            assert(ballots[i].validator == ballots[j].validator);
            assert(prints[g] == prints[h]);
        }
    }
}

/// The shares of the groups of a round never add up to more than
/// `PRECISION`, and to exactly that where the credibility of each group
/// makes a whole number of parts of the total.
pub proof fn lemma_weights_conserved(ballots: Seq<Ballot>, table: Seq<NodeCredibilityView>)
    ensures
        seq_sum(group_weights(ballots, table)) <= PRECISION,
        total_credibility(ballots, table) > 0 && divides_evenly(
            group_sums(ballots, table),
            total_credibility(ballots, table),
        ) ==> seq_sum(group_weights(ballots, table)) == PRECISION,
        total_credibility(ballots, table) == 0 ==> seq_sum(group_weights(ballots, table)) == 0,
{
    let sums = group_sums(ballots, table);
    assert(group_weights(ballots, table) =~= shares_in(sums, seq_sum(sums)));
    lemma_shares_conserved(sums);
}

/// What holds of the groups after the copies in `seen` were filed: they
/// stand in the order of `fingerprints`, each with its validators, the sum
/// of their credibility and the message of its first copy, which is the copy
/// at the position that `firsts` gives. Shares are not yet set.
spec fn filed(
    result: Seq<Group>,
    seen: Seq<Ballot>,
    table: Seq<NodeCredibilityView>,
    firsts: Seq<int>,
) -> bool {
    let prints = fingerprints(seen);
    &&& result.len() == prints.len()
    &&& firsts.len() == prints.len()
    &&& forall|g: int|
        0 <= g < result.len() ==> {
            &&& (#[trigger] result[g]).fingerprint@ == prints[g]
            &&& result[g].credibility.validators.deep_view() == members(seen, prints[g])
            &&& result[g].credibility.group_credibility_value == credibility_sum(
                members(seen, prints[g]),
                table,
            )
            &&& result[g].credibility.credibility_weight == 0
            &&& is_first_copy(seen, prints[g], firsts[g])
            &&& result[g].message@ == seen[firsts[g]].message
        }
}

/// Filing a copy under a group that exists keeps the groups as `filed`
/// describes them. `joins` says whether the validator of the copy is new to
/// the group.
proof fn lemma_filed_under_old(
    before: Seq<Group>,
    after: Seq<Group>,
    seen: Seq<Ballot>,
    next: Seq<Ballot>,
    table: Seq<NodeCredibilityView>,
    firsts: Seq<int>,
    g: int,
    joins: bool,
)
    requires
        filed(before, seen, table, firsts),
        next.len() == seen.len() + 1,
        next.drop_last() == seen,
        0 <= g < before.len(),
        next.last().fingerprint == before[g].fingerprint@,
        joins == !before[g].credibility.validators.deep_view().contains(next.last().validator),
        after.len() == before.len(),
        forall|k: int| 0 <= k < before.len() && k != g ==> after[k] == before[k],
        after[g].fingerprint == before[g].fingerprint,
        after[g].message == before[g].message,
        after[g].credibility.credibility_weight == 0,
        joins ==> after[g].credibility.validators.deep_view()
            == before[g].credibility.validators.deep_view().push(next.last().validator)
            && after[g].credibility.group_credibility_value
            == before[g].credibility.group_credibility_value + reported(
            table,
            next.last().validator,
        ),
        !joins ==> after[g].credibility.validators.deep_view()
            == before[g].credibility.validators.deep_view()
            && after[g].credibility.group_credibility_value
            == before[g].credibility.group_credibility_value,
    ensures
        filed(after, next, table, firsts),
        before[g].credibility.group_credibility_value <= total_credibility(seen, table),
        total_credibility(next, table) == total_credibility(seen, table) + if joins {
            reported(table, next.last().validator) as int
        } else {
            0
        },
{
    let print = next.last().fingerprint;
    let prints = fingerprints(seen);
    lemma_fingerprints_distinct(seen);
    assert(prints[g] == print);
    assert(prints.contains(print));
    assert(fingerprints(next) == prints);
    lemma_seq_sum_bounds(group_sums(seen, table), g);
    assert forall|k: int| 0 <= k < prints.len() && k != g implies members(next, prints[k])
        == members(seen, prints[k]) by {
        assert(prints[k] != prints[g]);
    }
    let sum = before[g].credibility.group_credibility_value as nat;
    if joins {
        let joined = members(seen, print).push(next.last().validator);
        assert(members(next, print) == joined);
        assert(joined.drop_last() =~= members(seen, print));
        let more = (sum + reported(table, next.last().validator)) as nat;
        assert(credibility_sum(joined, table) == more);
        assert(group_sums(next, table) =~= group_sums(seen, table).update(g, more));
        lemma_seq_sum_update(group_sums(seen, table), g, more);
    } else {
        assert(members(next, print) == members(seen, print));
        assert(group_sums(next, table) =~= group_sums(seen, table));
    }
    assert forall|k: int| 0 <= k < after.len() implies {
        &&& (#[trigger] after[k]).fingerprint@ == fingerprints(next)[k]
        &&& after[k].credibility.validators.deep_view() == members(next, fingerprints(next)[k])
        &&& after[k].credibility.group_credibility_value == credibility_sum(
            members(next, fingerprints(next)[k]),
            table,
        )
        &&& after[k].credibility.credibility_weight == 0
        &&& is_first_copy(next, fingerprints(next)[k], firsts[k])
        &&& after[k].message@ == next[firsts[k]].message
    } by {
        assert(before[k].fingerprint@ == prints[k]);
        assert(is_first_copy(seen, prints[k], firsts[k]));
        assert(next[firsts[k]] == seen[firsts[k]]);
        assert forall|j: int| 0 <= j < firsts[k] implies next[j].fingerprint != prints[k] by {
            assert(next[j] == seen[j]);
        }
    }
}

/// Filing a copy with a fingerprint that was not seen before adds one group
/// behind the others.
proof fn lemma_filed_under_new(
    before: Seq<Group>,
    after: Seq<Group>,
    seen: Seq<Ballot>,
    next: Seq<Ballot>,
    table: Seq<NodeCredibilityView>,
    firsts: Seq<int>,
)
    requires
        filed(before, seen, table, firsts),
        next.len() == seen.len() + 1,
        next.drop_last() == seen,
        forall|k: int| 0 <= k < before.len() ==> (#[trigger] before[k]).fingerprint@
            != next.last().fingerprint,
        after.len() == before.len() + 1,
        forall|k: int| 0 <= k < before.len() ==> after[k] == before[k],
        after.last().fingerprint@ == next.last().fingerprint,
        after.last().message@ == next.last().message,
        after.last().credibility.credibility_weight == 0,
        after.last().credibility.validators.deep_view() == seq![next.last().validator],
        after.last().credibility.group_credibility_value == reported(
            table,
            next.last().validator,
        ),
    ensures
        filed(after, next, table, firsts.push(seen.len() as int)),
        total_credibility(next, table) == total_credibility(seen, table) + reported(
            table,
            next.last().validator,
        ),
{
    let print = next.last().fingerprint;
    let key = next.last().validator;
    let prints = fingerprints(seen);
    let places = firsts.push(seen.len() as int);
    assert(!prints.contains(print)) by {
        if prints.contains(print) {
            let k = choose|k: int| 0 <= k < prints.len() && prints[k] == print;
            assert(before[k].fingerprint@ == print);
        }
    }
    lemma_fingerprints_cover(seen, print);
    lemma_members_of_absent(seen, print);
    assert(fingerprints(next) == prints.push(print));
    assert(members(next, print) =~= seq![key]);
    assert(seq![key].drop_last() =~= Seq::<Seq<u8>>::empty());
    assert(seq![key].last() == key);
    assert(credibility_sum(Seq::<Seq<u8>>::empty(), table) == 0);
    assert(credibility_sum(seq![key], table) == reported(table, key));
    assert forall|k: int| 0 <= k < prints.len() implies members(next, prints[k]) == members(
        seen,
        prints[k],
    ) by {
        assert(prints.contains(prints[k]));
    }
    assert(group_sums(next, table) =~= group_sums(seen, table).push(reported(table, key) as nat));
    assert(group_sums(next, table).drop_last() =~= group_sums(seen, table));
    assert(is_first_copy(next, print, seen.len() as int)) by {
        assert forall|j: int| 0 <= j < seen.len() implies next[j].fingerprint != print by {
            assert(seen[j].fingerprint == next[j].fingerprint);
        }
    }
    assert forall|k: int| 0 <= k < after.len() implies {
        &&& (#[trigger] after[k]).fingerprint@ == fingerprints(next)[k]
        &&& after[k].credibility.validators.deep_view() == members(next, fingerprints(next)[k])
        &&& after[k].credibility.group_credibility_value == credibility_sum(
            members(next, fingerprints(next)[k]),
            table,
        )
        &&& after[k].credibility.credibility_weight == 0
        &&& is_first_copy(next, fingerprints(next)[k], places[k])
        &&& after[k].message@ == next[places[k]].message
    } by {
        if k < before.len() {
            assert(before[k].fingerprint@ == prints[k]);
            assert(is_first_copy(seen, prints[k], firsts[k]));
            assert(next[firsts[k]] == seen[firsts[k]]);
            assert forall|j: int| 0 <= j < firsts[k] implies next[j].fingerprint != prints[k] by {
                assert(next[j] == seen[j]);
            }
        }
    }
}

/// The position of the group that is filed under `hash`, if there is one.
fn find_group(groups: &Vec<Group>, hash: &String) -> (found: Option<usize>)
    ensures
        match found {
            Some(g) => g < groups.len() && groups[g as int].fingerprint@ == hash@,
            None => forall|g: int| 0 <= g < groups.len() ==> groups[g].fingerprint@ != hash@,
        },
{
    let mut g: usize = 0;
    while g < groups.len()
        invariant
            g <= groups.len(),
            forall|k: int| 0 <= k < g ==> groups[k].fingerprint@ != hash@,
        decreases groups.len() - g,
    {
        if groups[g].fingerprint == *hash {
            return Some(g);
        }
        g = g + 1;
    }
    None
}

/// Files every copy under its fingerprint and sets the share of each group.
///
/// `hashes` holds the fingerprint of each copy at the same position. A
/// validator counts once for a group, however many copies it submitted
/// with that fingerprint.
pub fn tally(copies: &Vec<MessageVerify>, hashes: &Vec<String>, table: &Vec<NodeCredibility>) -> (result:
    Vec<Group>)
    requires
        hashes.len() == copies.len(),
    ensures
        result.deep_view() == groups(
            ballots(copies.deep_view(), hashes.deep_view()),
            table.deep_view(),
        ),
{
    let ghost all = ballots(copies.deep_view(), hashes.deep_view());
    let ghost scores = table.deep_view();
    let ghost mut firsts: Seq<int> = Seq::empty();
    let mut result: Vec<Group> = Vec::new();
    let mut total: u128 = 0;
    let mut i: usize = 0;
    assert(group_sums(all.take(0), scores) =~= Seq::<nat>::empty());
    while i < copies.len()
        invariant
            i <= copies.len(),
            hashes.len() == copies.len(),
            all == ballots(copies.deep_view(), hashes.deep_view()),
            scores == table.deep_view(),
            filed(result@, all.take(i as int), scores, firsts),
            total == total_credibility(all.take(i as int), scores),
            total <= i * u32::MAX,
        decreases copies.len() - i,
    {
        let copy = &copies[i];
        let hash = &hashes[i];
        let credibility = reported_credibility(table, &copy.validator);
        let ghost seen = all.take(i as int);
        let ghost next = all.take(i + 1);
        let ghost before = result@;
        proof {
            assert(next.drop_last() =~= seen);
            assert(next.last().validator == copy.validator@);
            assert(next.last().fingerprint == hash@);
            assert(next.last().message == copy.message@);
        }
        match find_group(&result, hash) {
            Some(g) => {
                let joins = !holds_key(&result[g].credibility.validators, &copy.validator);
                proof {
                    lemma_seq_sum_bounds(group_sums(seen, scores), g as int);
                    assert(before[g as int].fingerprint@ == fingerprints(seen)[g as int]);
                }
                if joins {
                    let sum = result[g].credibility.group_credibility_value;
                    result[g].credibility.group_credibility_value = sum + credibility as u128;
                    result[g].credibility.validators.push(copy.validator.clone());
                    total = total + credibility as u128;
                    assert(result[g as int].credibility.validators.deep_view()
                        =~= before[g as int].credibility.validators.deep_view().push(
                        copy.validator@,
                    ));
                }
                proof {
                    lemma_filed_under_old(
                        before,
                        result@,
                        seen,
                        next,
                        scores,
                        firsts,
                        g as int,
                        joins,
                    );
                }
            },
            None => {
                let mut validators: Vec<PublicKey> = Vec::new();
                validators.push(copy.validator.clone());
                assert(validators.deep_view() =~= seq![copy.validator@]);
                result.push(
                    Group {
                        fingerprint: hash.clone(),
                        message: copy.message.clone(),
                        credibility: GroupCredibility {
                            group_credibility_value: credibility as u128,
                            credibility_weight: 0,
                            validators,
                        },
                    },
                );
                total = total + credibility as u128;
                proof {
                    lemma_filed_under_new(before, result@, seen, next, scores, firsts);
                    firsts = firsts.push(i as int);
                }
            },
        }
        i = i + 1;
    }
    proof {
        assert(all.take(i as int) =~= all);
    }
    let mut g: usize = 0;
    while g < result.len()
        invariant
            g <= result.len(),
            result.len() == fingerprints(all).len(),
            firsts.len() == result.len(),
            total == total_credibility(all, scores),
            total <= copies.len() * u32::MAX,
            forall|k: int|
                0 <= k < result.len() ==> {
                    &&& (#[trigger] result[k]).fingerprint@ == fingerprints(all)[k]
                    &&& result[k].credibility.validators.deep_view() == members(
                        all,
                        fingerprints(all)[k],
                    )
                    &&& result[k].credibility.group_credibility_value == group_sums(all, scores)[k]
                    &&& is_first_copy(all, fingerprints(all)[k], firsts[k])
                    &&& result[k].message@ == all[firsts[k]].message
                },
            forall|k: int|
                0 <= k < g ==> (#[trigger] result[k]).credibility.credibility_weight
                    == group_weights(all, scores)[k],
        decreases result.len() - g,
    {
        let sum = result[g].credibility.group_credibility_value;
        proof {
            lemma_seq_sum_bounds(group_sums(all, scores), g as int);
            lemma_weight_fraction_bounds(sum as nat, total as nat);
        }
        let weight: u32 = if total == 0 {
            0
        } else {
            (PRECISION as u128 * sum / total) as u32
        };
        result[g].credibility.credibility_weight = weight;
        g = g + 1;
    }
    proof {
        let expected = groups(all, scores);
        assert forall|k: int| 0 <= k < result.len() implies result.deep_view()[k]
            == expected[k] by {
            assert(result[k].fingerprint@ == fingerprints(all)[k]);
            lemma_first_copy_unique(all, fingerprints(all)[k], firsts[k]);
        }
        assert(result.deep_view() =~= expected);
    }
    result
}

} // verus!
