use rand::rngs::SysError;
use rustdis::unique_ids::{decimal_string, generate_reply, generated_id, handle_generate, GenerateError};
use rustdis::ResponsePayload;

#[test]
fn decimal_of_small_and_large_numbers() {
    assert_eq!(decimal_string(0), "0");
    assert_eq!(decimal_string(9), "9");
    assert_eq!(decimal_string(10), "10");
    assert_eq!(decimal_string(1234567), "1234567");
    assert_eq!(decimal_string(u32::MAX), "4294967295");
}

#[test]
fn generated_id_is_seed_dash_number() {
    assert_eq!(generated_id("n1", 42), "n1-42");
    assert_eq!(generated_id("", 0), "-0");
}

#[test]
fn generated_ids_of_different_numbers_differ() {
    assert_ne!(generated_id("n3", 7), generated_id("n3", 70));
}

#[test]
fn handle_generate_prefixes_the_seed() {
    match handle_generate("n7".to_string()).unwrap() {
        ResponsePayload::GenerateOk { id } => {
            let rest = id.strip_prefix("n7-").expect("seed and dash first");
            let n: u32 = rest.parse().expect("a decimal number");
            assert_eq!(decimal_string(n), rest);
        }
        other => panic!("unexpected {:?}", other),
    }
}

#[test]
fn generate_reply_of_a_drawn_number() {
    match generate_reply("n2", Ok(305)) {
        Ok(ResponsePayload::GenerateOk { id }) => assert_eq!(id, "n2-305"),
        other => panic!("unexpected {:?}", other),
    }
}

#[test]
fn generate_reply_when_the_source_fails() {
    assert_eq!(generate_reply("n2", Err(SysError::UNEXPECTED)).unwrap_err(), GenerateError::NoRandomness);
}

#[test]
fn ids_of_different_seeds_differ() {
    assert_ne!(generated_id("n1", 23), generated_id("n12", 3));
    assert_ne!(generated_id("a-b", 1), generated_id("a", 1));
    assert_eq!(generated_id("a-b", 1), "a-b-1");
}
