use credibility_engine::identity::PublicKey;
use credibility_engine::message::{Content, Message, MessageVerify, Sqos};
use credibility_engine::msg_verify::{
    Contract as Verification, CredibilityReply, MsgVerify, VerifyError,
};
use credibility_engine::node_evaluation::{
    Contract as Evaluation, NodeCredibility, NodeEvaluation,
};
use credibility_engine::ranking::TieBreak;

const VC_ID: &str = "vc";
const EC_ID: &str = "ec";
const CC_ID: &str = "cc";

fn init(credibility_weight_threshold: u32, initial_credibility_value: u32) -> (Verification, Evaluation) {
    let vc = Verification::init(CC_ID.to_string(), EC_ID.to_string(), credibility_weight_threshold);
    let ec = Evaluation::inite(
        CC_ID.to_string(),
        VC_ID.to_string(),
        initial_credibility_value,
        7000,
        2000,
        1000,
        3000,
    );
    (vc, ec)
}

fn key(number: u32) -> PublicKey {
    let mut data = vec![0u8; 33];
    data[29..33].copy_from_slice(&number.to_be_bytes());
    PublicKey::new(data)
}

fn register_validators(ec: &mut Evaluation, account_num: u32) -> Vec<PublicKey> {
    let mut validators = Vec::new();
    for num in 1..=account_num {
        ec.register_node(key(num)).unwrap();
        validators.push(key(num));
    }
    validators
}

fn create_message() -> (Message, Message) {
    let first = Message {
        from_chain: "NEAR".to_string(),
        to_chain: "ETHEREUM".to_string(),
        sender: "alice.near".to_string(),
        signer: "alice.near".to_string(),
        sqos: Sqos { reveal: true },
        content: Content {
            contract: "greeting".to_string(),
            action: "receive_greeting".to_string(),
            data: "hello".to_string(),
        },
    };
    let mut second = first.clone();
    second.content.data = "good bye".to_string();
    (first, second)
}

fn validator_generate_message(validators: &[PublicKey], message: &Message) -> Vec<MessageVerify> {
    validators
        .iter()
        .map(|validator| MessageVerify { validator: validator.clone(), message: message.clone() })
        .collect()
}

fn call_receive_message(
    vc: &mut Verification,
    ec: &mut Evaluation,
    received: Vec<(&[PublicKey], &Message)>,
) -> Vec<Message> {
    let mut msgs = Vec::new();
    for (validators, message) in received {
        msgs.extend(validator_generate_message(validators, message));
    }
    let query = vc.msg_verify(&msgs, None);
    let report = ec.get_nodes_credibility(query.nodes);
    let outcome = vc
        .credibility_callback(msgs, query.threshold, CredibilityReply::Scores(report))
        .unwrap();
    let accepted = outcome.accepted();
    ec.update_nodes(&VC_ID.to_string(), outcome.trusted, outcome.untrusted, outcome.exception)
        .unwrap();
    vc.result_callback(accepted)
}

fn scores(ec: &Evaluation, nodes: &[PublicKey]) -> Vec<u32> {
    ec.get_nodes_credibility(nodes.to_vec()).into_iter().map(|cv| cv.credibility_value).collect()
}

#[test]
pub fn simulate_validator_crediblity_greater_middle_crediblity() {
    let initail_credibiltiy_value: u32 = 4000u32;
    let credibility_weight_threshold: u32 = 1000u32;
    let (mut vc, mut ec) = init(credibility_weight_threshold, initail_credibiltiy_value);
    let validators_pk = register_validators(&mut ec, 27);
    ec.select_validators();
    let (message_1, _) = create_message();
    let received_message = vec![(&validators_pk[..], &message_1)];
    let return_value = call_receive_message(&mut vc, &mut ec, received_message);
    assert_eq!(message_1, return_value[0]);
    // check credibility value
    let credibility_value: Vec<NodeCredibility> = ec.get_nodes_credibility(validators_pk.clone());
    let expect_value: u32 = 100 * initail_credibiltiy_value / 10000 + initail_credibiltiy_value;
    assert_eq!(credibility_value.len(), 27);
    for cv in credibility_value {
        assert_eq!(expect_value, cv.credibility_value);
    }
    let listed = ec.get_node(0, 20);
    assert_eq!(listed.len(), 20);
}

#[test]
fn five_validators_below_the_middle_agree() {
    let (mut vc, mut ec) = init(1000, 4000);
    let validators = register_validators(&mut ec, 5);
    let (message_1, _) = create_message();
    let accepted = call_receive_message(&mut vc, &mut ec, vec![(&validators[..], &message_1)]);
    assert_eq!(accepted, vec![message_1]);
    assert_eq!(scores(&ec, &validators), vec![4040; 5]);
}

#[test]
fn five_validators_above_the_middle_agree() {
    let (mut vc, mut ec) = init(1000, 6000);
    let validators = register_validators(&mut ec, 5);
    let (message_1, _) = create_message();
    let accepted = call_receive_message(&mut vc, &mut ec, vec![(&validators[..], &message_1)]);
    assert_eq!(accepted, vec![message_1]);
    assert_eq!(scores(&ec, &validators), vec![6040; 5]);
}

#[test]
fn the_larger_group_wins_and_the_smaller_loses() {
    let (mut vc, mut ec) = init(1000, 6000);
    let validators = register_validators(&mut ec, 9);
    let (message_1, message_2) = create_message();
    let accepted = call_receive_message(
        &mut vc,
        &mut ec,
        vec![(&validators[..5], &message_1), (&validators[5..], &message_2)],
    );
    assert_eq!(accepted.len(), 1);
    assert_eq!(message_1, accepted[0]);
    assert_ne!(message_2, accepted[0]);
    assert_eq!(scores(&ec, &validators[..5]), vec![6040; 5]);
    assert_eq!(scores(&ec, &validators[5..]), vec![5880; 4]);
}

#[test]
fn split_round_has_the_expected_shares() {
    let (mut vc, mut ec) = init(1000, 6000);
    let validators = register_validators(&mut ec, 9);
    let (message_1, message_2) = create_message();
    let mut msgs = validator_generate_message(&validators[..5], &message_1);
    msgs.extend(validator_generate_message(&validators[5..], &message_2));
    let query = vc.msg_verify(&msgs, Some(6000));
    assert_eq!(query.threshold, 6000);
    let report = ec.get_nodes_credibility(query.nodes);
    let outcome = vc
        .credibility_callback(msgs, query.threshold, CredibilityReply::Scores(report))
        .unwrap();
    assert!(outcome.accepted_message.is_none());
    assert!(outcome.trusted.is_empty());
    assert!(outcome.untrusted.is_empty());
    assert_eq!(outcome.exception.len(), 2);
    assert_eq!(outcome.exception[0].0, validators[..5].to_vec());
    assert_eq!(outcome.exception[0].1, 5555);
    assert_eq!(outcome.exception[1].0, validators[5..].to_vec());
    assert_eq!(outcome.exception[1].1, 4444);
}

#[test]
fn without_a_winner_every_group_pays_for_its_share() {
    let initial: u32 = 6000;
    let (mut vc, mut ec) = init(6000, initial);
    let validators = register_validators(&mut ec, 9);
    let (message_1, message_2) = create_message();
    let accepted = call_receive_message(
        &mut vc,
        &mut ec,
        vec![(&validators[..5], &message_1), (&validators[5..], &message_2)],
    );
    assert_eq!(accepted, Vec::new());
    let weight_1 = 10000 * (initial * 5) / (initial * 9);
    let weight_2 = 10000 * (initial * 4) / (initial * 9);
    assert_eq!((weight_1, weight_2), (5555, 4444));
    let expect_1 = initial - 100 * initial / 10000 * (10000 - weight_1) / 10000;
    let expect_2 = initial - 100 * initial / 10000 * (10000 - weight_2) / 10000;
    assert_eq!((expect_1, expect_2), (5974, 5967));
    assert_eq!(scores(&ec, &validators[..5]), vec![expect_1; 5]);
    assert_eq!(scores(&ec, &validators[5..]), vec![expect_2; 4]);
}

#[test]
fn a_failed_fetch_abandons_the_round() {
    let (vc, mut ec) = init(1000, 4000);
    let validators = register_validators(&mut ec, 3);
    let (message_1, _) = create_message();
    let msgs = validator_generate_message(&validators, &message_1);
    let result = vc.credibility_callback(msgs, 1000, CredibilityReply::Failed);
    assert_eq!(result.unwrap_err(), VerifyError::TransportFailure);
    assert_eq!(scores(&ec, &validators), vec![4000; 3]);
}

#[test]
fn an_unreadable_reply_abandons_the_round() {
    let (vc, mut ec) = init(1000, 4000);
    let validators = register_validators(&mut ec, 3);
    let (message_1, _) = create_message();
    let msgs = validator_generate_message(&validators, &message_1);
    let result = vc.credibility_callback(msgs, 1000, CredibilityReply::Malformed);
    assert_eq!(result.unwrap_err(), VerifyError::MalformedResponse);
}

#[test]
fn the_query_names_each_validator_once_and_the_configured_share() {
    let (mut vc, _) = init(1234, 4000);
    let (message_1, message_2) = create_message();
    let msgs = vec![
        MessageVerify { validator: key(2), message: message_1.clone() },
        MessageVerify { validator: key(1), message: message_1.clone() },
        MessageVerify { validator: key(2), message: message_2.clone() },
        MessageVerify { validator: key(3), message: message_1.clone() },
        MessageVerify { validator: key(1), message: message_1.clone() },
    ];
    let query = vc.msg_verify(&msgs, None);
    assert_eq!(query.nodes, vec![key(2), key(1), key(3)]);
    assert_eq!(query.threshold, 1234);
    assert_eq!(vc.credibility_weight_threshold(), 1234);
    assert_eq!(vc.cross_contract_id(), CC_ID);
    assert_eq!(vc.node_ev_address(), EC_ID);
}

#[test]
fn the_result_is_handed_on_unchanged() {
    let (mut vc, _) = init(1000, 4000);
    let (message_1, message_2) = create_message();
    let list = vc.result_callback(vec![message_2.clone(), message_1.clone()]);
    assert_eq!(list, vec![message_2, message_1]);
}

#[test]
fn unregistered_validators_weigh_nothing_in_a_round() {
    let (mut vc, mut ec) = init(1000, 4000);
    let registered = register_validators(&mut ec, 2);
    let strangers = vec![key(100), key(101), key(102)];
    let (message_1, message_2) = create_message();
    let accepted = call_receive_message(
        &mut vc,
        &mut ec,
        vec![(&strangers[..], &message_2), (&registered[..], &message_1)],
    );
    assert_eq!(accepted, vec![message_1]);
    assert_eq!(scores(&ec, &registered), vec![4040; 2]);
    assert_eq!(scores(&ec, &strangers), vec![0; 3]);
}

#[test]
fn the_service_can_be_told_how_to_break_ties() {
    let (mut vc, mut ec) = init(1000, 6000);
    assert_eq!(vc.tie_break(), TieBreak::FirstSeen);
    let validators = register_validators(&mut ec, 4);
    let (message_1, message_2) = create_message();
    let first = call_receive_message(
        &mut vc,
        &mut ec,
        vec![(&validators[..1], &message_1), (&validators[1..2], &message_2)],
    );
    assert_eq!(first, vec![message_1.clone()]);
    vc.set_tie_break(TieBreak::LastSeen);
    assert_eq!(vc.tie_break(), TieBreak::LastSeen);
    assert_eq!(vc.credibility_weight_threshold(), 1000);
    let second = call_receive_message(
        &mut vc,
        &mut ec,
        vec![(&validators[2..3], &message_1), (&validators[3..], &message_2)],
    );
    assert_eq!(second, vec![message_2]);
}
