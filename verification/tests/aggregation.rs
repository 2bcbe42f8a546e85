use credibility_engine::credibility::{reported_credibility, NodeCredibility};
use credibility_engine::fingerprint::ToHash;
use credibility_engine::identity::{holds_key, PublicKey};
use credibility_engine::message::{Content, Message, MessageVerify, Sqos};
use credibility_engine::msg_verify::{decide, resolve};
use credibility_engine::ranking::{rank, TieBreak};
use credibility_engine::tally::tally;

fn key(number: u8) -> PublicKey {
    PublicKey::new(vec![0, number])
}

fn message(data: &str) -> Message {
    Message {
        from_chain: "A".to_string(),
        to_chain: "B".to_string(),
        sender: "sender".to_string(),
        signer: "signer".to_string(),
        sqos: Sqos { reveal: false },
        content: Content {
            contract: "contract".to_string(),
            action: "action".to_string(),
            data: data.to_string(),
        },
    }
}

fn copies(votes: &[(u8, &str)]) -> (Vec<MessageVerify>, Vec<String>) {
    let msgs: Vec<MessageVerify> = votes
        .iter()
        .map(|(validator, data)| MessageVerify { validator: key(*validator), message: message(data) })
        .collect();
    let hashes = votes.iter().map(|(_, data)| data.to_string()).collect();
    (msgs, hashes)
}

fn table(scores: &[(u8, u32)]) -> Vec<NodeCredibility> {
    scores
        .iter()
        .map(|(validator, score)| NodeCredibility { validator: key(*validator), credibility_value: *score })
        .collect()
}

#[test]
fn every_copy_is_filed_under_the_group_of_its_fingerprint() {
    let (msgs, hashes) = copies(&[(1, "x"), (2, "y"), (3, "x"), (4, "z"), (5, "y"), (6, "x")]);
    let groups = tally(&msgs, &hashes, &table(&[]));
    let prints: Vec<&str> = groups.iter().map(|g| g.fingerprint.as_str()).collect();
    assert_eq!(prints, vec!["x", "y", "z"]);
    assert_eq!(groups[0].credibility.validators, vec![key(1), key(3), key(6)]);
    assert_eq!(groups[1].credibility.validators, vec![key(2), key(5)]);
    assert_eq!(groups[2].credibility.validators, vec![key(4)]);
    for (copy, hash) in msgs.iter().zip(hashes.iter()) {
        let found: Vec<_> = groups.iter().filter(|g| &g.fingerprint == hash).collect();
        assert_eq!(found.len(), 1);
        assert!(holds_key(&found[0].credibility.validators, &copy.validator));
    }
}

#[test]
fn a_group_carries_the_message_of_its_first_copy() {
    let (mut msgs, hashes) = copies(&[(1, "x"), (2, "x")]);
    msgs[1].message.signer = "another".to_string();
    let groups = tally(&msgs, &hashes, &table(&[(1, 10), (2, 10)]));
    assert_eq!(groups.len(), 1);
    assert_eq!(groups[0].message, msgs[0].message);
}

#[test]
fn messages_that_are_equal_share_a_fingerprint() {
    let one = message("x");
    let other = message("x");
    assert_eq!(one, other);
    assert_eq!(one.to_hash(), other.to_hash());
    assert_ne!(one.to_hash(), message("y").to_hash());
}

#[test]
fn signer_and_service_options_take_no_part_in_the_fingerprint() {
    let one = message("x");
    let mut other = message("x");
    other.signer = "somebody else".to_string();
    other.sqos.reveal = true;
    assert_ne!(one, other);
    assert_eq!(one.to_hash(), other.to_hash());
}

#[test]
fn a_repeated_copy_counts_once() {
    let scores = table(&[(1, 3000), (2, 5000)]);
    let (msgs, hashes) = copies(&[(1, "x"), (2, "y")]);
    let (more_msgs, more_hashes) = copies(&[(1, "x"), (2, "y"), (1, "x"), (1, "x")]);
    let once = tally(&msgs, &hashes, &scores);
    let twice = tally(&more_msgs, &more_hashes, &scores);
    assert_eq!(once.len(), twice.len());
    for (a, b) in once.iter().zip(twice.iter()) {
        assert_eq!(a.fingerprint, b.fingerprint);
        assert_eq!(a.credibility.validators, b.credibility.validators);
        assert_eq!(a.credibility.group_credibility_value, b.credibility.group_credibility_value);
        assert_eq!(a.credibility.credibility_weight, b.credibility.credibility_weight);
    }
    assert_eq!(twice[0].credibility.group_credibility_value, 3000);
    assert_eq!(twice[0].credibility.credibility_weight, 3750);
    assert_eq!(twice[1].credibility.credibility_weight, 6250);
}

#[test]
fn a_validator_counts_in_each_group_it_submitted_to() {
    let (msgs, hashes) = copies(&[(1, "x"), (1, "y")]);
    let groups = tally(&msgs, &hashes, &table(&[(1, 4000)]));
    assert_eq!(groups.len(), 2);
    assert_eq!(groups[0].credibility.credibility_weight, 5000);
    assert_eq!(groups[1].credibility.credibility_weight, 5000);
}

#[test]
fn shares_add_up_to_the_whole_when_nothing_is_rounded() {
    let (msgs, hashes) = copies(&[(1, "x"), (2, "y"), (3, "y"), (4, "z")]);
    let groups = tally(&msgs, &hashes, &table(&[(1, 2500), (2, 2500), (3, 2500), (4, 2500)]));
    let weights: Vec<u32> = groups.iter().map(|g| g.credibility.credibility_weight).collect();
    assert_eq!(weights, vec![2500, 5000, 2500]);
    assert_eq!(weights.iter().sum::<u32>(), 10000);
}

#[test]
fn shares_never_add_up_to_more_than_the_whole() {
    let (msgs, hashes) = copies(&[(1, "x"), (2, "y"), (3, "z")]);
    let groups = tally(&msgs, &hashes, &table(&[(1, 1), (2, 1), (3, 1)]));
    let weights: Vec<u32> = groups.iter().map(|g| g.credibility.credibility_weight).collect();
    assert_eq!(weights, vec![3333, 3333, 3333]);
    assert!(weights.iter().sum::<u32>() <= 10000);
}

#[test]
fn without_credibility_every_share_is_zero() {
    let (msgs, hashes) = copies(&[(1, "x"), (2, "y")]);
    let groups = tally(&msgs, &hashes, &table(&[(1, 0)]));
    assert_eq!(groups[0].credibility.credibility_weight, 0);
    assert_eq!(groups[1].credibility.credibility_weight, 0);
    let rejected = resolve(&msgs, &hashes, &table(&[(1, 0)]), TieBreak::FirstSeen, 1);
    assert!(rejected.accepted_message.is_none());
    assert_eq!(rejected.exception, vec![(vec![key(1)], 0), (vec![key(2)], 0)]);
    let accepted = resolve(&msgs, &hashes, &table(&[(1, 0)]), TieBreak::FirstSeen, 0);
    assert_eq!(accepted.accepted_message, Some(message("x")));
}

#[test]
fn large_scores_do_not_overflow() {
    let (msgs, hashes) = copies(&[(1, "x"), (2, "x"), (3, "y")]);
    let groups = tally(&msgs, &hashes, &table(&[(1, u32::MAX), (2, u32::MAX), (3, u32::MAX)]));
    assert_eq!(groups[0].credibility.group_credibility_value, 2 * u32::MAX as u128);
    assert_eq!(groups[0].credibility.credibility_weight, 6666);
    assert_eq!(groups[1].credibility.credibility_weight, 3333);
}

#[test]
fn the_last_report_for_a_validator_counts() {
    let scores = table(&[(1, 10), (2, 20), (1, 30)]);
    assert_eq!(reported_credibility(&scores, &key(1)), 30);
    assert_eq!(reported_credibility(&scores, &key(2)), 20);
    assert_eq!(reported_credibility(&scores, &key(3)), 0);
}

#[test]
fn groups_are_ranked_by_share_and_ties_by_first_appearance() {
    let (msgs, hashes) = copies(&[(1, "a"), (2, "b"), (3, "c"), (4, "d")]);
    let groups = tally(&msgs, &hashes, &table(&[(1, 10), (2, 30), (3, 30), (4, 10)]));
    assert_eq!(rank(&groups, TieBreak::FirstSeen), vec![1, 2, 0, 3]);
    let outcome = decide(&groups, TieBreak::FirstSeen, 3000);
    assert_eq!(outcome.accepted_message, Some(message("b")));
    assert_eq!(outcome.trusted, vec![key(2)]);
    assert_eq!(outcome.untrusted, vec![key(3), key(1), key(4)]);
    assert!(outcome.exception.is_empty());
    assert_eq!(outcome.accepted(), vec![message("b")]);
}

#[test]
fn a_share_equal_to_the_threshold_wins() {
    let (msgs, hashes) = copies(&[(1, "a"), (2, "b")]);
    let scores = table(&[(1, 6000), (2, 4000)]);
    assert_eq!(resolve(&msgs, &hashes, &scores, TieBreak::FirstSeen, 6000).accepted_message, Some(message("a")));
    let rejected = resolve(&msgs, &hashes, &scores, TieBreak::FirstSeen, 6001);
    assert_eq!(rejected.accepted_message, None);
    assert_eq!(rejected.exception, vec![(vec![key(1)], 6000), (vec![key(2)], 4000)]);
    assert!(rejected.accepted().is_empty());
}

#[test]
fn groups_without_a_winner_are_listed_by_rank() {
    let (msgs, hashes) = copies(&[(1, "a"), (2, "b"), (3, "b"), (4, "c")]);
    let scores = table(&[(1, 1000), (2, 2000), (3, 2000), (4, 1000)]);
    let outcome = resolve(&msgs, &hashes, &scores, TieBreak::FirstSeen, 9000);
    assert_eq!(
        outcome.exception,
        vec![(vec![key(2), key(3)], 6666), (vec![key(1)], 1666), (vec![key(4)], 1666)]
    );
}

#[test]
fn ties_can_go_to_the_group_seen_last() {
    let (msgs, hashes) = copies(&[(1, "a"), (2, "b"), (3, "c"), (4, "d")]);
    let groups = tally(&msgs, &hashes, &table(&[(1, 10), (2, 30), (3, 30), (4, 10)]));
    assert_eq!(rank(&groups, TieBreak::LastSeen), vec![2, 1, 3, 0]);
    let outcome = decide(&groups, TieBreak::LastSeen, 3000);
    assert_eq!(outcome.accepted_message, Some(message("c")));
    assert_eq!(outcome.trusted, vec![key(3)]);
    assert_eq!(outcome.untrusted, vec![key(2), key(4), key(1)]);
}

#[test]
fn a_single_group_is_ranked_alone() {
    let (msgs, hashes) = copies(&[(1, "a"), (2, "a")]);
    let groups = tally(&msgs, &hashes, &table(&[(1, 10), (2, 30)]));
    assert_eq!(rank(&groups, TieBreak::FirstSeen), vec![0]);
    assert_eq!(rank(&groups, TieBreak::LastSeen), vec![0]);
    assert_eq!(groups[0].credibility.credibility_weight, 10000);
}

#[test]
fn the_shares_of_a_rejected_round_add_up_as_those_of_its_groups() {
    let (msgs, hashes) = copies(&[(1, "a"), (2, "b"), (3, "b"), (4, "c"), (5, "d")]);
    let scores = table(&[(1, 1000), (2, 2000), (3, 2000), (4, 1000), (5, 3000)]);
    let groups = tally(&msgs, &hashes, &scores);
    let filed: u32 = groups.iter().map(|g| g.credibility.credibility_weight).sum();
    for rule in [TieBreak::FirstSeen, TieBreak::LastSeen] {
        let outcome = resolve(&msgs, &hashes, &scores, rule, 9000);
        let listed: u32 = outcome.exception.iter().map(|group| group.1).sum();
        assert_eq!(listed, filed);
        assert!(listed <= 10000);
    }
    assert_eq!(filed, 1111 + 4444 + 1111 + 3333);
}

#[test]
fn an_outcome_names_every_validator_of_the_copies_and_nobody_else() {
    let (msgs, hashes) = copies(&[(1, "a"), (2, "b"), (3, "b"), (1, "a"), (4, "c"), (2, "c")]);
    let scores = table(&[(1, 1000), (2, 2000), (3, 2000), (9, 5000)]);
    for threshold in [0, 3000, 10001] {
        let outcome = resolve(&msgs, &hashes, &scores, TieBreak::FirstSeen, threshold);
        let mut named: Vec<PublicKey> = Vec::new();
        named.extend(outcome.trusted.iter().cloned());
        named.extend(outcome.untrusted.iter().cloned());
        for group in &outcome.exception {
            named.extend(group.0.iter().cloned());
        }
        for number in [1, 2, 3, 4] {
            assert!(holds_key(&named, &key(number)));
        }
        assert!(!holds_key(&named, &key(9)));
        assert!(named.iter().all(|k| msgs.iter().any(|copy| &copy.validator == k)));
    }
}
