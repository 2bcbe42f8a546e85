//! The plan for the next duty roster: how likely each trustworthy validator
//! is to be drawn, and how many places go to the trustworthy validators and
//! how many are drawn from all.
//!
//! The roster has as many places as there are trustworthy validators. The
//! part of it that goes to them is what the validators with a chance above
//! the threshold have together, held between the smallest and the largest
//! ratio that the service allows, and never more than the whole.
//!
//! Places are whole, so the part is rounded: down, but never below the
//! fewest places that make the smallest ratio. The smallest ratio is
//! therefore always met. The largest is met whenever some number of places
//! lies within both ratios; where none does, as for one place between two
//! and seven tenths, the roster takes the fewest places that make the
//! smallest ratio, which is less than one place above the largest.

use crate::credibility::{NodeCredibilityView, PRECISION};
use crate::identity::PublicKey;
use crate::shares::{
    lemma_seq_sum_bounds, lemma_shares_conserved, lemma_weight_fraction_bounds, seq_sum,
    shares_in, weight_fraction,
};
use crate::store::CredibilityStore;
use vstd::prelude::*;

verus! {

/// The plan for a roster.
#[derive(Debug)]
pub struct Selection {
    /// Each trustworthy validator with its chance, in parts of `PRECISION`.
    pub probabilities: Vec<(PublicKey, u32)>,
    /// The chances above the threshold, added up.
    pub trustworthy_all: u32,
    /// The places that go to trustworthy validators.
    pub credibility_selected_num: u64,
    /// The places that are drawn from all validators.
    pub random_selected_num: u64,
}

/// A plan over key bytes and numbers.
pub struct SelectionView {
    pub probabilities: Seq<(Seq<u8>, nat)>,
    pub trustworthy_all: nat,
    pub credibility_selected_num: nat,
    pub random_selected_num: nat,
}

impl View for Selection {
    type V = SelectionView;

    open spec fn view(&self) -> SelectionView {
        SelectionView {
            probabilities: Seq::new(
                self.probabilities.len() as nat,
                |i: int| (self.probabilities[i].0@, self.probabilities[i].1 as nat),
            ),
            trustworthy_all: self.trustworthy_all as nat,
            credibility_selected_num: self.credibility_selected_num as nat,
            random_selected_num: self.random_selected_num as nat,
        }
    }
}

/// The scores of `entries`, position by position.
pub open spec fn scores(entries: Seq<NodeCredibilityView>) -> Seq<nat> {
    Seq::new(entries.len(), |i: int| entries[i].credibility_value as nat)
}

/// The chance of each entry: the share of its score in all scores.
pub open spec fn chances(entries: Seq<NodeCredibilityView>) -> Seq<nat> {
    shares_in(scores(entries), seq_sum(scores(entries)))
}

/// The sum of those of `values` that are above `floor`.
pub open spec fn sum_above(values: Seq<nat>, floor: nat) -> nat
    decreases values.len(),
{
    if values.len() == 0 {
        0
    } else if values.last() > floor {
        sum_above(values.drop_last(), floor) + values.last()
    } else {
        sum_above(values.drop_last(), floor)
    }
}

/// The part of the roster that goes to trustworthy validators, in parts of
/// `PRECISION`: `all`, but no more than `max_ratio`, then no less than
/// `min_ratio`, and never more than the whole.
pub open spec fn roster_ratio(all: nat, min_ratio: nat, max_ratio: nat) -> nat {
    let capped = if all > max_ratio {
        max_ratio
    } else {
        all
    };
    let raised = if capped < min_ratio {
        min_ratio
    } else {
        capped
    };
    if raised > PRECISION {
        PRECISION as nat
    } else {
        raised
    }
}

/// The fewest places that make the `min_ratio` part of `count` places. A
/// ratio above the whole counts as the whole.
pub open spec fn least_places(count: nat, min_ratio: nat) -> nat {
    let part = if min_ratio > PRECISION {
        PRECISION as nat
    } else {
        min_ratio
    };
    (count * part + (PRECISION - 1)) as nat / PRECISION as nat
}

/// The places of a roster of `count` that go to trustworthy validators,
/// where the chances above the threshold add up to `all`: the part that
/// `roster_ratio` gives, rounded down, but no fewer than `least_places`.
pub open spec fn trustworthy_places(count: nat, all: nat, min_ratio: nat, max_ratio: nat) -> nat {
    let rounded = count * roster_ratio(all, min_ratio, max_ratio) / PRECISION as nat;
    let least = least_places(count, min_ratio);
    if rounded < least {
        least
    } else {
        rounded
    }
}

/// Whether `places` of `count` lie within both ratios.
pub open spec fn within_ratios(count: nat, min_ratio: nat, max_ratio: nat, places: nat) -> bool {
    count * min_ratio <= PRECISION * places <= count * max_ratio
}

/// The plan for the trustworthy validators in `entries`.
pub open spec fn selection(
    entries: Seq<NodeCredibilityView>,
    threshold: u32,
    min_ratio: u32,
    max_ratio: u32,
) -> SelectionView {
    let all = sum_above(chances(entries), threshold as nat);
    let chosen = trustworthy_places(entries.len(), all, min_ratio as nat, max_ratio as nat);
    SelectionView {
        probabilities: Seq::new(entries.len(), |i: int| (entries[i].validator, chances(entries)[i])),
        trustworthy_all: all,
        credibility_selected_num: chosen,
        random_selected_num: (entries.len() - chosen) as nat,
    }
}

/// What is above the floor is part of the whole.
pub proof fn lemma_sum_above_bounds(values: Seq<nat>, floor: nat)
    ensures
        sum_above(values, floor) <= seq_sum(values),
    decreases values.len(),
{
    if values.len() > 0 {
        lemma_sum_above_bounds(values.drop_last(), floor);
    }
}

/// The chances above the threshold never add up to more than the whole.
pub proof fn lemma_trustworthy_all_bounds(entries: Seq<NodeCredibilityView>, threshold: nat)
    ensures
        sum_above(chances(entries), threshold) <= PRECISION,
{
    lemma_shares_conserved(scores(entries));
    lemma_sum_above_bounds(chances(entries), threshold);
}

/// The places of the trustworthy validators are places of the roster. They
/// always make the smallest ratio. They stay within the largest ratio
/// whenever some number of places lies within both; otherwise they are the
/// fewest that make the smallest.
pub proof fn lemma_trustworthy_places(count: nat, all: nat, min_ratio: nat, max_ratio: nat)
    ensures
        trustworthy_places(count, all, min_ratio, max_ratio) <= count,
        min_ratio <= PRECISION ==> count * min_ratio <= PRECISION * trustworthy_places(
            count,
            all,
            min_ratio,
            max_ratio,
        ),
        min_ratio <= max_ratio <= PRECISION && (exists|places: nat|
            within_ratios(count, min_ratio, max_ratio, places)) ==> within_ratios(
            count,
            min_ratio,
            max_ratio,
            trustworthy_places(count, all, min_ratio, max_ratio),
        ),
        min_ratio <= max_ratio <= PRECISION && !within_ratios(
            count,
            min_ratio,
            max_ratio,
            trustworthy_places(count, all, min_ratio, max_ratio),
        ) ==> trustworthy_places(count, all, min_ratio, max_ratio) > 0 && PRECISION * (
        trustworthy_places(count, all, min_ratio, max_ratio) - 1) < count * min_ratio,
{
    let ratio = roster_ratio(all, min_ratio, max_ratio);
    let part = if min_ratio > PRECISION {
        PRECISION as nat
    } else {
        min_ratio
    };
    let whole = count * ratio;
    let floor = count * part;
    let rounded = whole / 10000;
    let least = (floor + 9999) as nat / 10000;
    assert(least == least_places(count, min_ratio));
    assert(rounded == count * roster_ratio(all, min_ratio, max_ratio) / PRECISION as nat);
    assert(whole <= count * 10000 && floor <= count * 10000) by (nonlinear_arith)
        requires
            whole == count * ratio,
            floor == count * part,
            ratio <= 10000,
            part <= 10000,
    ;
    if min_ratio <= max_ratio <= PRECISION {
        assert(floor <= whole <= count * max_ratio) by (nonlinear_arith)
            requires
                whole == count * ratio,
                floor == count * part,
                part <= ratio <= max_ratio,
        ;
        if exists|places: nat| within_ratios(count, min_ratio, max_ratio, places) {
            let places = choose|places: nat| within_ratios(count, min_ratio, max_ratio, places);
            assert(least <= places);
        }
    }
}

/// Every place of the roster is given once, and the places of the
/// trustworthy validators keep to the ratios of the service as
/// `lemma_trustworthy_places` says.
pub proof fn lemma_selection_within_ratios(
    entries: Seq<NodeCredibilityView>,
    threshold: u32,
    min_ratio: u32,
    max_ratio: u32,
)
    ensures
        selection(entries, threshold, min_ratio, max_ratio).credibility_selected_num + selection(
            entries,
            threshold,
            min_ratio,
            max_ratio,
        ).random_selected_num == entries.len(),
        min_ratio <= PRECISION ==> entries.len() * min_ratio <= PRECISION * selection(
            entries,
            threshold,
            min_ratio,
            max_ratio,
        ).credibility_selected_num,
        min_ratio <= max_ratio <= PRECISION && (exists|places: nat|
            within_ratios(entries.len(), min_ratio as nat, max_ratio as nat, places))
            ==> within_ratios(
            entries.len(),
            min_ratio as nat,
            max_ratio as nat,
            selection(entries, threshold, min_ratio, max_ratio).credibility_selected_num,
        ),
{
    let all = sum_above(chances(entries), threshold as nat);
    lemma_trustworthy_places(entries.len(), all, min_ratio as nat, max_ratio as nat);
}

/// Plans the roster from the list of trustworthy validators.
pub fn select(store: &CredibilityStore, threshold: u32, min_ratio: u32, max_ratio: u32) -> (plan:
    Selection)
    ensures
        plan@ == selection(store@, threshold, min_ratio, max_ratio),
{
    let ghost entries = store@;
    let ghost values = scores(entries);
    let count = store.len();
    let mut total: u128 = 0;
    let mut i: usize = 0;
    assert(values.take(0) =~= Seq::<nat>::empty());
    while i < count
        invariant
            i <= count,
            count == store@.len(),
            entries == store@,
            values == scores(entries),
            total == seq_sum(values.take(i as int)),
            total <= i * u32::MAX,
        decreases count - i,
    {
        assert(values.take(i + 1).drop_last() =~= values.take(i as int));
        total = total + store.entry(i).credibility_value as u128;
        i = i + 1;
    }
    assert(values.take(count as int) =~= values);
    let ghost odds = chances(entries);
    let mut probabilities: Vec<(PublicKey, u32)> = Vec::new();
    let mut all: u128 = 0;
    let mut i: usize = 0;
    assert(odds.take(0) =~= Seq::<nat>::empty());
    while i < count
        invariant
            i <= count,
            count == store@.len(),
            entries == store@,
            values == scores(entries),
            odds == chances(entries),
            total == seq_sum(values),
            total <= count * u32::MAX,
            probabilities.len() == i,
            forall|k: int|
                0 <= k < i ==> (#[trigger] probabilities[k]).0@ == entries[k].validator
                    && probabilities[k].1 == odds[k],
            all == sum_above(odds.take(i as int), threshold as nat),
            all <= i * 10000,
        decreases count - i,
    {
        let entry = store.entry(i);
        let score = entry.credibility_value;
        proof {
            lemma_seq_sum_bounds(values, i as int);
            lemma_weight_fraction_bounds(score as nat, total as nat);
            assert(odds[i as int] == weight_fraction(score as nat, total as nat));
            assert(odds.take(i + 1).drop_last() =~= odds.take(i as int));
        }
        let chance: u32 = if total == 0 {
            0
        } else {
            (PRECISION as u128 * score as u128 / total) as u32
        };
        if chance > threshold {
            all = all + chance as u128;
        }
        probabilities.push((entry.validator.clone(), chance));
        i = i + 1;
    }
    proof {
        assert(odds.take(count as int) =~= odds);
        lemma_trustworthy_all_bounds(entries, threshold as nat);
        lemma_trustworthy_places(count as nat, all as nat, min_ratio as nat, max_ratio as nat);
    }
    let capped: u64 = if all > max_ratio as u128 {
        max_ratio as u64
    } else {
        all as u64
    };
    let raised: u64 = if capped < min_ratio as u64 {
        min_ratio as u64
    } else {
        capped
    };
    let ratio: u64 = if raised > PRECISION as u64 {
        PRECISION as u64
    } else {
        raised
    };
    let part: u64 = if min_ratio > PRECISION {
        PRECISION as u64
    } else {
        min_ratio as u64
    };
    assert(count * ratio <= count * 10000 && count * part <= count * 10000) by (nonlinear_arith)
        requires
            ratio <= 10000,
            part <= 10000,
    ;
    let rounded = count as u128 * ratio as u128 / PRECISION as u128;
    let least = (count as u128 * part as u128 + (PRECISION - 1) as u128) / PRECISION as u128;
    let chosen = if rounded < least {
        least as u64
    } else {
        rounded as u64
    };
    let plan = Selection {
        probabilities,
        trustworthy_all: all as u32,
        credibility_selected_num: chosen,
        random_selected_num: count as u64 - chosen,
    };
    assert(plan@.probabilities =~= selection(
        store@,
        threshold,
        min_ratio,
        max_ratio,
    ).probabilities);
    plan
}

} // verus!
