use credibility_engine::identity::PublicKey;
use credibility_engine::lottery::{draw, remaining};
use credibility_engine::node_evaluation::{Contract, NodeCredibility, NodeEvaluation};

fn key(number: u8) -> PublicKey {
    PublicKey::new(vec![3, number])
}

fn pool(scores: &[u32]) -> Vec<NodeCredibility> {
    scores
        .iter()
        .enumerate()
        .map(|(i, score)| NodeCredibility { validator: key(i as u8), credibility_value: *score })
        .collect()
}

#[test]
fn a_weighted_number_falls_on_the_validator_whose_room_it_hits() {
    // rooms: [0, 1) for 0, [1, 3) for 1, [3, 6) for 2
    assert_eq!(draw(pool(&[1, 2, 3]), true, &vec![0], 0, 1), vec![key(0)]);
    assert_eq!(draw(pool(&[1, 2, 3]), true, &vec![1], 0, 1), vec![key(1)]);
    assert_eq!(draw(pool(&[1, 2, 3]), true, &vec![2], 0, 1), vec![key(1)]);
    assert_eq!(draw(pool(&[1, 2, 3]), true, &vec![3], 0, 1), vec![key(2)]);
    assert_eq!(draw(pool(&[1, 2, 3]), true, &vec![5], 0, 1), vec![key(2)]);
    assert_eq!(draw(pool(&[1, 2, 3]), true, &vec![6], 0, 1), vec![key(0)]);
    assert_eq!(draw(pool(&[0, 0, 7]), true, &vec![u64::MAX], 0, 1), vec![key(2)]);
}

#[test]
fn whoever_is_drawn_leaves_the_pool() {
    assert_eq!(draw(pool(&[1, 2, 3]), true, &vec![3, 1, 0], 0, 3), vec![key(2), key(1), key(0)]);
    assert_eq!(draw(pool(&[1, 2, 3]), true, &vec![0, 0, 0], 0, 3), vec![key(0), key(1), key(2)]);
    assert_eq!(draw(pool(&[5, 5, 5, 5]), false, &vec![1, 1, 1, 1], 0, 4), vec![key(1), key(2), key(3), key(0)]);
}

#[test]
fn a_plain_draw_takes_no_notice_of_scores() {
    assert_eq!(draw(pool(&[1, 1000, 5]), false, &vec![2], 0, 1), vec![key(2)]);
    assert_eq!(draw(pool(&[1, 1000, 5]), false, &vec![3], 0, 1), vec![key(0)]);
}

#[test]
fn scores_of_zero_are_drawn_alike() {
    assert_eq!(draw(pool(&[0, 0, 0]), true, &vec![4, 4], 0, 2), vec![key(1), key(0)]);
}

#[test]
fn a_draw_ends_with_the_places_the_pool_or_the_numbers() {
    assert_eq!(draw(pool(&[1, 2, 3]), true, &vec![0, 0, 0], 0, 2).len(), 2);
    assert_eq!(draw(pool(&[1, 2]), true, &vec![0, 0, 0], 0, 3).len(), 2);
    assert_eq!(draw(pool(&[1, 2, 3]), true, &vec![0, 0, 0], 2, 3), vec![key(0)]);
    assert_eq!(draw(pool(&[1, 2, 3]), true, &vec![0, 0, 0], 3, 3), Vec::new());
    assert_eq!(draw(pool(&[]), true, &vec![0], 0, 3), Vec::new());
    assert_eq!(draw(pool(&[1]), false, &vec![0], 0, 0), Vec::new());
}

#[test]
fn those_who_were_taken_are_left_out() {
    let left = remaining(&pool(&[10, 20, 30, 40]), &vec![key(2), key(0), key(9)]);
    let names: Vec<PublicKey> = left.into_iter().map(|e| e.validator).collect();
    assert_eq!(names, vec![key(1), key(3)]);
}

#[test]
fn the_roster_takes_trustworthy_validators_first_and_fills_up_from_all() {
    let mut ec = Contract::inite("cc".to_string(), "vc".to_string(), 4000, 7000, 2000, 4010, 3000);
    for number in 0..6 {
        ec.register_node(key(number)).unwrap();
    }
    // three validators rise to 4040 and become trustworthy
    ec.update_nodes(&"vc".to_string(), vec![key(4), key(1), key(3)], Vec::new(), Vec::new())
        .unwrap();
    let plan = ec.select_validators();
    assert_eq!((plan.credibility_selected_num, plan.random_selected_num), (2, 1));
    // weighted: 4040 each, 12120 in all; 5000 hits the second, 0 the first of the rest
    // plain: those left of the six are 0, 2, 3, 5; 7 % 4 hits the last
    let roster = ec.select_round_validators(&vec![5000, 0, 7]);
    assert_eq!(roster, vec![key(1), key(4), key(5)]);
    let short = ec.select_round_validators(&vec![5000]);
    assert_eq!(short, vec![key(1)]);
    assert_eq!(ec.select_round_validators(&Vec::new()), Vec::new());
}

#[test]
fn nobody_stands_twice_on_a_roster() {
    let mut ec = Contract::inite("cc".to_string(), "vc".to_string(), 6000, 7000, 2000, 1000, 3000);
    let all: Vec<PublicKey> = (0..10).map(key).collect();
    for validator in &all {
        ec.register_node(validator.clone()).unwrap();
    }
    ec.update_nodes(&"vc".to_string(), all.clone(), Vec::new(), Vec::new()).unwrap();
    for seed in 0..50u64 {
        let numbers: Vec<u64> = (0..10).map(|i| seed.wrapping_mul(0x9e37_79b9_7f4a_7c15) ^ (i * 7919)).collect();
        let roster = ec.select_round_validators(&numbers);
        assert_eq!(roster.len(), 10);
        for validator in &all {
            assert_eq!(roster.iter().filter(|chosen| *chosen == validator).count(), 1);
        }
    }
}
