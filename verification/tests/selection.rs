use credibility_engine::identity::PublicKey;
use credibility_engine::node_evaluation::{Contract, NodeCredibility, NodeEvaluation};
use credibility_engine::selector::select;
use credibility_engine::store::CredibilityStore;

fn key(number: u8) -> PublicKey {
    PublicKey::new(vec![2, number])
}

fn store(scores: &[u32]) -> CredibilityStore {
    let entries = scores
        .iter()
        .enumerate()
        .map(|(i, score)| NodeCredibility { validator: key(i as u8), credibility_value: *score })
        .collect();
    CredibilityStore::from_entries(entries).unwrap()
}

#[test]
fn an_empty_list_gives_an_empty_plan() {
    let plan = select(&store(&[]), 3000, 2000, 7000);
    assert!(plan.probabilities.is_empty());
    assert_eq!(plan.trustworthy_all, 0);
    assert_eq!(plan.credibility_selected_num, 0);
    assert_eq!(plan.random_selected_num, 0);
}

#[test]
fn chances_are_shares_of_the_scores() {
    let plan = select(&store(&[5000, 3000, 2000]), 2500, 2000, 7000);
    assert_eq!(plan.probabilities, vec![(key(0), 5000), (key(1), 3000), (key(2), 2000)]);
    assert_eq!(plan.trustworthy_all, 8000);
    // 8000 is held at 7000, and 3 * 7000 / 10000 is 2
    assert_eq!(plan.credibility_selected_num, 2);
    assert_eq!(plan.random_selected_num, 1);
}

#[test]
fn the_part_of_the_trustworthy_is_raised_to_the_smallest_ratio() {
    let scores = [1000u32; 10];
    let plan = select(&store(&scores), 3000, 2000, 7000);
    assert_eq!(plan.probabilities.iter().map(|p| p.1).collect::<Vec<u32>>(), vec![1000; 10]);
    assert_eq!(plan.trustworthy_all, 0);
    assert_eq!(plan.credibility_selected_num, 2);
    assert_eq!(plan.random_selected_num, 8);
}

#[test]
fn the_part_of_the_trustworthy_is_never_more_than_the_roster() {
    let plan = select(&store(&[9000, 1000, 1000, 1000]), 1, 20000, 7000);
    assert_eq!(plan.credibility_selected_num, 4);
    assert_eq!(plan.random_selected_num, 0);
}

#[test]
fn scores_of_zero_have_no_chance() {
    let plan = select(&store(&[0, 0]), 0, 0, 10000);
    assert_eq!(plan.probabilities, vec![(key(0), 0), (key(1), 0)]);
    assert_eq!(plan.trustworthy_all, 0);
    assert_eq!(plan.credibility_selected_num, 0);
    assert_eq!(plan.random_selected_num, 2);
}

#[test]
fn the_service_plans_from_its_trustworthy_list() {
    let mut ec = Contract::inite("cc".to_string(), "vc".to_string(), 4000, 7000, 2000, 1000, 3000);
    for number in 0..4 {
        ec.register_node(key(number)).unwrap();
    }
    let before = ec.select_validators();
    assert!(before.probabilities.is_empty());
    assert_eq!(before.credibility_selected_num + before.random_selected_num, 0);
    ec.update_nodes(&"vc".to_string(), vec![key(0), key(1), key(2)], Vec::new(), Vec::new())
        .unwrap();
    let plan = ec.select_validators();
    assert_eq!(plan.probabilities, vec![(key(0), 3333), (key(1), 3333), (key(2), 3333)]);
    assert_eq!(plan.trustworthy_all, 9999);
    assert_eq!(plan.credibility_selected_num, 2);
    assert_eq!(plan.random_selected_num, 1);
}

#[test]
fn the_smallest_ratio_is_met_where_rounding_down_would_miss_it() {
    // four of one score have a chance of 2500 each, none above the threshold:
    // a fifth of four places is less than one, and one place makes it
    let plan = select(&store(&[4000, 4000, 4000, 4000]), 3000, 2000, 7000);
    assert_eq!(plan.trustworthy_all, 0);
    assert_eq!(plan.credibility_selected_num, 1);
    assert_eq!(plan.random_selected_num, 3);
    assert!(4 * 2000 <= 10000 * plan.credibility_selected_num);
    assert!(10000 * plan.credibility_selected_num <= 4 * 7000);
}

#[test]
fn a_roster_of_twenty_seven_gives_six_places_to_the_trustworthy() {
    let scores = [4040u32; 27];
    let plan = select(&store(&scores), 3000, 2000, 7000);
    assert_eq!(plan.trustworthy_all, 0);
    assert_eq!(plan.credibility_selected_num, 6);
    assert_eq!(plan.random_selected_num, 21);
    assert!(27 * 2000 <= 10000 * plan.credibility_selected_num);
    assert!(10000 * plan.credibility_selected_num <= 27 * 7000);
}

#[test]
fn both_ratios_are_kept_wherever_some_number_of_places_keeps_them() {
    for count in 0..60usize {
        let scores = vec![1000u32; count];
        for (min_ratio, max_ratio) in [(2000u32, 7000u32), (0, 0), (0, 10000), (3333, 3334), (5000, 5000), (1, 9999), (10000, 10000)] {
            for threshold in [0u32, 500, 3000, 10000] {
                let plan = select(&store_of(&scores), threshold, min_ratio, max_ratio);
                let places = plan.credibility_selected_num;
                assert_eq!(places + plan.random_selected_num, count as u64);
                assert!(count as u64 * min_ratio as u64 <= 10000 * places);
                let fits = (0..=count as u64).any(|k| {
                    count as u64 * min_ratio as u64 <= 10000 * k
                        && 10000 * k <= count as u64 * max_ratio as u64
                });
                if fits {
                    assert!(10000 * places <= count as u64 * max_ratio as u64);
                } else {
                    // the fewest places that make the smallest ratio
                    assert!(places > 0);
                    assert!(10000 * (places - 1) < count as u64 * min_ratio as u64);
                }
            }
        }
    }
}

#[test]
fn where_no_number_of_places_keeps_both_ratios_the_smallest_is_made() {
    // one place: between a fifth and seven tenths lies no whole number
    let plan = select(&store(&[4000]), 3000, 2000, 7000);
    assert_eq!(plan.credibility_selected_num, 1);
    assert_eq!(plan.random_selected_num, 0);
}

fn store_of(scores: &[u32]) -> CredibilityStore {
    let entries = scores
        .iter()
        .enumerate()
        .map(|(i, score)| NodeCredibility {
            validator: PublicKey::new(vec![2, (i / 256) as u8, (i % 256) as u8]),
            credibility_value: *score,
        })
        .collect();
    CredibilityStore::from_entries(entries).unwrap()
}
