//! Credibility scores as they are reported for validators.

use crate::identity::PublicKey;
use vstd::prelude::*;

verus! {

/// The lowest score a validator can hold.
pub const MIN_CONFIDENCE: u32 = 0;

/// The highest score a validator can hold.
pub const MAX_CONFIDENCE: u32 = 10000;

/// The score at which the rule for trusted validators changes.
pub const MIDDLE_CONFIDENCE: u32 = 5000;

/// The width of the score range.
pub const RANGE: u32 = 10000;

/// Shares and ratios are counted in parts of this.
pub const PRECISION: u32 = 10000;

/// A validator with its credibility score.
#[derive(Debug)]
pub struct NodeCredibility {
    pub validator: PublicKey,
    pub credibility_value: u32,
}

/// A validator's key bytes with its credibility score.
pub struct NodeCredibilityView {
    pub validator: Seq<u8>,
    pub credibility_value: u32,
}

impl View for NodeCredibility {
    type V = NodeCredibilityView;

    open spec fn view(&self) -> NodeCredibilityView {
        NodeCredibilityView {
            validator: self.validator@,
            credibility_value: self.credibility_value,
        }
    }
}

impl DeepView for NodeCredibility {
    type V = NodeCredibilityView;

    open spec fn deep_view(&self) -> NodeCredibilityView {
        self@
    }
}

impl Clone for NodeCredibility {
    fn clone(&self) -> (copy: NodeCredibility)
        ensures
            copy@ == self@,
    {
        NodeCredibility {
            validator: self.validator.clone(),
            credibility_value: self.credibility_value,
        }
    }
}

impl PartialEq for NodeCredibility {
    fn eq(&self, other: &NodeCredibility) -> (same: bool) {
        self.validator == other.validator && self.credibility_value == other.credibility_value
    }
}

impl Eq for NodeCredibility {

}

impl vstd::std_specs::cmp::PartialEqSpecImpl for NodeCredibility {
    open spec fn obeys_eq_spec() -> bool {
        true
    }

    open spec fn eq_spec(&self, other: &NodeCredibility) -> bool {
        self@ == other@
    }
}

/// Groups of validators, each with the share it held in a round.
pub open spec fn weighted_groups(list: Seq<(Vec<PublicKey>, u32)>) -> Seq<(Seq<Seq<u8>>, nat)> {
    Seq::new(list.len(), |g: int| (list[g].0.deep_view(), list[g].1 as nat))
}

/// The credibility that `table` reports for `key`: the score of the last
/// entry for it, and zero where the table has none.
pub open spec fn reported(table: Seq<NodeCredibilityView>, key: Seq<u8>) -> u32
    decreases table.len(),
{
    if table.len() == 0 {
        0
    } else if table.last().validator == key {
        table.last().credibility_value
    } else {
        reported(table.drop_last(), key)
    }
}

/// Looks a validator up in a table of reported scores.
pub fn reported_credibility(table: &Vec<NodeCredibility>, key: &PublicKey) -> (value: u32)
    ensures
        value == reported(table.deep_view(), key@),
{
    let mut i: usize = table.len();
    assert(table.deep_view().take(i as int) =~= table.deep_view());
    while i > 0
        invariant
            i <= table.len(),
            reported(table.deep_view(), key@) == reported(table.deep_view().take(i as int), key@),
        decreases i,
    {
        let ghost prefix = table.deep_view().take(i as int);
        assert(prefix.last() == table[i - 1]@);
        assert(prefix.drop_last() =~= table.deep_view().take(i - 1));
        if table[i - 1].validator == *key {
            return table[i - 1].credibility_value;
        }
        i = i - 1;
    }
    0
}

} // verus!
