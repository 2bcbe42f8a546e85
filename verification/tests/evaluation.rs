use credibility_engine::identity::PublicKey;
use credibility_engine::node_evaluation::{
    Contract, EvaluationError, NodeCredibility, NodeEvaluation,
};
use credibility_engine::store::CredibilityStore;

fn key(number: u8) -> PublicKey {
    PublicKey::new(vec![1, number])
}

fn entry(number: u8, score: u32) -> NodeCredibility {
    NodeCredibility { validator: key(number), credibility_value: score }
}

fn service(initial: u32, floor: u32) -> Contract {
    Contract::inite("cc".to_string(), "vc".to_string(), initial, 7000, 2000, floor, 3000)
}

fn vc() -> String {
    "vc".to_string()
}

#[test]
fn an_unregistered_validator_is_reported_with_zero() {
    let mut ec = service(4000, 1000);
    ec.register_node(key(1)).unwrap();
    let report = ec.get_nodes_credibility(vec![key(9), key(1), key(9)]);
    assert_eq!(report, vec![entry(9, 0), entry(1, 4000), entry(9, 0)]);
    assert_eq!(ec.get_nodes_credibility(Vec::new()), Vec::new());
    assert_eq!(service(4000, 1000).get_nodes_credibility(vec![key(1)]), vec![entry(1, 0)]);
}

#[test]
fn a_second_registration_is_turned_down() {
    let mut ec = service(4000, 1000);
    assert_eq!(ec.register_node(key(1)), Ok(()));
    ec.set_initial_credibility(5000);
    assert_eq!(ec.register_node(key(1)), Err(EvaluationError::AlreadyRegistered));
    assert_eq!(ec.get_node(0, 10), vec![entry(1, 4000)]);
    assert_eq!(ec.register_node(key(2)), Ok(()));
    assert_eq!(ec.get_node(0, 10), vec![entry(1, 4000), entry(2, 5000)]);
    assert_eq!(ec.initial_credibility_value(), 5000);
}

#[test]
fn a_validator_that_left_has_its_place_taken_by_the_last() {
    let mut ec = service(4000, 1000);
    for number in 1..=5 {
        ec.register_node(key(number)).unwrap();
    }
    ec.unregister_node(key(2));
    let order: Vec<PublicKey> = ec.get_node(0, 10).into_iter().map(|e| e.validator).collect();
    assert_eq!(order, vec![key(1), key(5), key(3), key(4)]);
    ec.unregister_node(key(4));
    ec.unregister_node(key(9));
    let order: Vec<PublicKey> = ec.get_node(0, 10).into_iter().map(|e| e.validator).collect();
    assert_eq!(order, vec![key(1), key(5), key(3)]);
    assert_eq!(ec.get_nodes_credibility(vec![key(2)]), vec![entry(2, 0)]);
    assert_eq!(ec.register_node(key(2)), Ok(()));
}

#[test]
fn pages_follow_the_order_of_the_store() {
    let mut ec = service(4000, 1000);
    for number in 1..=5 {
        ec.register_node(key(number)).unwrap();
    }
    assert_eq!(ec.get_node(0, 2), vec![entry(1, 4000), entry(2, 4000)]);
    assert_eq!(ec.get_node(3, 10), vec![entry(4, 4000), entry(5, 4000)]);
    assert_eq!(ec.get_node(4, 1), vec![entry(5, 4000)]);
    assert_eq!(ec.get_node(2, 0), Vec::new());
    assert_eq!(ec.get_node(5, 3), Vec::new());
    assert_eq!(ec.get_node(6, 3), Vec::new());
    assert_eq!(ec.get_node(1, u64::MAX).len(), 4);
    assert_eq!(ec.get_node(u64::MAX, u64::MAX), Vec::new());
}

#[test]
fn only_the_verification_service_may_report_a_round() {
    let mut ec = service(4000, 1000);
    ec.register_node(key(1)).unwrap();
    let result = ec.update_nodes(&"cc".to_string(), vec![key(1)], vec![key(1)], vec![(vec![key(1)], 0)]);
    assert_eq!(result, Err(EvaluationError::Unauthorized));
    assert_eq!(ec.get_node(0, 10), vec![entry(1, 4000)]);
    assert!(!ec.is_trustworthy(&key(1)));
    assert_eq!(ec.update_nodes(&vc(), vec![key(1)], Vec::new(), Vec::new()), Ok(()));
    assert_eq!(ec.get_node(0, 10), vec![entry(1, 4040)]);
}

#[test]
fn a_round_moves_trusted_untrusted_and_exception_in_turn() {
    let mut ec = service(6000, 1000);
    for number in 1..=4 {
        ec.register_node(key(number)).unwrap();
    }
    ec.update_nodes(
        &vc(),
        vec![key(1)],
        vec![key(2)],
        vec![(vec![key(3)], 5555), (vec![key(4)], 4444)],
    )
    .unwrap();
    assert_eq!(
        ec.get_node(0, 10),
        vec![entry(1, 6040), entry(2, 5880), entry(3, 5974), entry(4, 5967)]
    );
}

#[test]
fn a_validator_named_twice_steps_twice() {
    let mut ec = service(6000, 1000);
    ec.register_node(key(1)).unwrap();
    ec.update_nodes(&vc(), vec![key(1), key(1)], vec![key(1)], Vec::new()).unwrap();
    let after_two = 6040 + 100 * (10000 - 6040) / 10000;
    let expected = after_two - 200 * after_two / 10000;
    assert_eq!(ec.get_node(0, 10), vec![entry(1, expected)]);
}

#[test]
fn the_trustworthy_list_follows_the_floor() {
    let mut ec = service(1010, 1000);
    ec.register_node(key(1)).unwrap();
    ec.register_node(key(2)).unwrap();
    assert!(!ec.is_trustworthy(&key(1)));
    ec.update_nodes(&vc(), vec![key(1)], vec![key(2)], Vec::new()).unwrap();
    // 1010 + 100 * 1010 / 10000 = 1020 and 1010 - 200 * 1010 / 10000 = 990
    assert_eq!(ec.get_node(0, 10), vec![entry(1, 1020), entry(2, 990)]);
    assert!(ec.is_trustworthy(&key(1)));
    assert!(!ec.is_trustworthy(&key(2)));
    assert_eq!(ec.trustworthy_validators(), vec![entry(1, 1020)]);
    ec.update_nodes(&vc(), Vec::new(), vec![key(1), key(1)], Vec::new()).unwrap();
    // 1020 - 20 = 1000 stays, 1000 - 20 = 980 leaves
    assert_eq!(ec.get_nodes_credibility(vec![key(1)]), vec![entry(1, 980)]);
    assert!(!ec.is_trustworthy(&key(1)));
    assert_eq!(ec.trustworthy_validators(), Vec::new());
}

#[test]
fn a_validator_that_leaves_is_no_longer_trustworthy() {
    let mut ec = service(4000, 1000);
    ec.register_node(key(1)).unwrap();
    ec.update_nodes(&vc(), vec![key(1)], Vec::new(), Vec::new()).unwrap();
    assert!(ec.is_trustworthy(&key(1)));
    ec.unregister_node(key(1));
    assert!(!ec.is_trustworthy(&key(1)));
    assert_eq!(ec.get_node(0, 10), Vec::new());
}

#[test]
fn a_round_gives_a_score_to_a_validator_that_had_none() {
    let mut ec = service(4000, 0);
    ec.update_nodes(&vc(), vec![key(7)], Vec::new(), Vec::new()).unwrap();
    assert_eq!(ec.get_node(0, 10), vec![entry(7, 0)]);
    assert!(ec.is_trustworthy(&key(7)));
    assert_eq!(ec.register_node(key(7)), Err(EvaluationError::AlreadyRegistered));
}

#[test]
fn scores_out_of_range_come_back_into_it() {
    let mut ec = service(u32::MAX, 1000);
    ec.register_node(key(1)).unwrap();
    ec.register_node(key(2)).unwrap();
    ec.register_node(key(3)).unwrap();
    ec.update_nodes(&vc(), vec![key(1)], vec![key(2)], vec![(vec![key(3)], u32::MAX)]).unwrap();
    assert_eq!(ec.get_node(0, 10), vec![entry(1, 10000), entry(2, 10000), entry(3, 10000)]);
}

#[test]
fn a_state_in_order_is_restored() {
    let made = Contract::restore(
        "cc".to_string(),
        "vc".to_string(),
        4000,
        7000,
        2000,
        1000,
        3000,
        vec![entry(1, 4040), entry(2, 900), entry(3, 5000)],
        vec![entry(3, 5000), entry(1, 4040)],
    )
    .unwrap();
    assert_eq!(made.get_node(0, 10), vec![entry(1, 4040), entry(2, 900), entry(3, 5000)]);
    assert_eq!(made.trustworthy_validators(), vec![entry(3, 5000), entry(1, 4040)]);
    assert_eq!(made.cross_contract_id(), "cc");
    assert_eq!(made.vc_contract_id(), "vc");
    assert_eq!(made.max_trustworthy_ratio(), 7000);
    assert_eq!(made.min_trustworthy_ratio(), 2000);
    assert_eq!(made.min_selected_threshold(), 1000);
    assert_eq!(made.trustworthy_threshold(), 3000);
}

#[test]
fn a_state_out_of_order_is_not_restored() {
    let restore = |scores: Vec<NodeCredibility>, listed: Vec<NodeCredibility>| {
        Contract::restore("cc".to_string(), "vc".to_string(), 4000, 7000, 2000, 1000, 3000, scores, listed)
    };
    assert!(restore(vec![entry(1, 1), entry(1, 2)], Vec::new()).is_none());
    assert!(restore(vec![entry(1, 5000)], vec![entry(1, 5000), entry(1, 5000)]).is_none());
    assert!(restore(vec![entry(1, 5000)], vec![entry(2, 5000)]).is_none());
    assert!(restore(vec![entry(1, 5000)], vec![entry(1, 5001)]).is_none());
    assert!(restore(vec![entry(1, 999)], vec![entry(1, 999)]).is_none());
    assert!(restore(vec![entry(1, 1000)], vec![entry(1, 1000)]).is_some());
}

#[test]
fn the_store_replaces_in_place_and_appends_at_the_end() {
    let mut store = CredibilityStore::new();
    assert_eq!(store.insert(key(1), 10), None);
    assert_eq!(store.insert(key(2), 20), None);
    assert_eq!(store.insert(key(1), 30), Some(10));
    assert_eq!(store.len(), 2);
    assert_eq!(store.entries(), vec![entry(1, 30), entry(2, 20)]);
    assert_eq!(store.get(&key(1)), Some(30));
    assert_eq!(store.get(&key(3)), None);
    assert_eq!(store.entry(1), &entry(2, 20));
    assert_eq!(store.remove(&key(1)), Some(30));
    assert_eq!(store.remove(&key(1)), None);
    assert_eq!(store.entries(), vec![entry(2, 20)]);
    assert!(CredibilityStore::from_entries(vec![entry(1, 1), entry(2, 1)]).is_some());
    assert!(CredibilityStore::from_entries(vec![entry(1, 1), entry(2, 1), entry(1, 1)]).is_none());
}
