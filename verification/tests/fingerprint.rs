use credibility_engine::fingerprint::{digest_text, message_bytes, ToHash};
use credibility_engine::message::{Content, Message, Sqos};

fn message(from_chain: &str, to_chain: &str, sender: &str, action: &str, contract: &str, data: &str) -> Message {
    Message {
        from_chain: from_chain.to_string(),
        to_chain: to_chain.to_string(),
        sender: sender.to_string(),
        signer: "signer".to_string(),
        sqos: Sqos { reveal: false },
        content: Content {
            contract: contract.to_string(),
            action: action.to_string(),
            data: data.to_string(),
        },
    }
}

#[test]
fn fingerprint_is_hex_of_sha256_of_the_fields() {
    let m = message("a", "b", "c", "", "", "");
    assert_eq!(
        m.to_hash(),
        "ba7816bf8f01cfea414140de5dae2223b00361a396177a9cb410ff61f20015ad"
    );
}

#[test]
fn fingerprint_of_empty_fields() {
    let m = message("", "", "", "", "", "");
    assert_eq!(
        m.to_hash(),
        "e3b0c44298fc1c149afbf4c8996fb92427ae41e4649b934ca495991b7852b855"
    );
}

#[test]
fn fields_enter_the_digest_in_order_with_data_last() {
    let m = message("NEAR", "ETH", "alice", "transfer", "token", "42");
    assert_eq!(message_bytes(&m), b"NEARETHalicetransfertoken42".to_vec());
}

#[test]
fn digest_is_written_in_lower_case_digits() {
    let mut digest = vec![0u8; 32];
    digest[0] = 0xab;
    digest[1] = 0x0f;
    digest[31] = 0xf0;
    let text = digest_text(&digest);
    assert_eq!(text.len(), 64);
    assert_eq!(&text[..4], "ab0f");
    assert_eq!(&text[62..], "f0");
}
