use bytecode_inspect::ProofGenerator;
use sha2::Digest;

#[test]
fn test_proof_generation() {
    let generator = ProofGenerator::new("deadbeef");
    let proof = generator.generate_proof("0x1234");
    assert!(!proof.is_empty());
    assert!(generator.verify_proof(&proof));
}

#[test]
fn proof_hash_binds_challenge_and_address() {
    let generator = ProofGenerator::new("deadbeef");
    let proof = generator.generate_proof("0x1234");
    let parsed: serde_json::Value = serde_json::from_str(&proof).unwrap();
    let mut input = vec![0xdeu8, 0xad, 0xbe, 0xef];
    input.extend_from_slice("0x1234".as_bytes());
    let expected = hex::encode(sha2::Sha256::digest(&input));
    assert_eq!(parsed["contract_address"].as_str().unwrap(), "0x1234");
    assert_eq!(parsed["proof_hash"].as_str().unwrap(), expected);
    assert!(parsed["timestamp"].as_u64().is_some());
    assert!(generator.verify_proof(&proof));
}

#[test]
fn tampered_address_fails_verification() {
    let generator = ProofGenerator::new("deadbeef");
    let proof = generator.generate_proof("0x1234");
    let parsed: serde_json::Value = serde_json::from_str(&proof).unwrap();
    let hash = parsed["proof_hash"].as_str().unwrap();
    let ts = parsed["timestamp"].as_u64().unwrap();
    let tampered = format!(
        "{{\"contract_address\":\"0x9999\",\"proof_hash\":\"{}\",\"timestamp\":{}}}",
        hash, ts
    );
    assert!(!generator.verify_proof(&tampered));
}

#[test]
fn timestamp_is_not_part_of_the_check() {
    let generator = ProofGenerator::new("deadbeef");
    let proof = generator.generate_proof("0x1234");
    let parsed: serde_json::Value = serde_json::from_str(&proof).unwrap();
    let hash = parsed["proof_hash"].as_str().unwrap();
    let stale = format!(
        "{{\"contract_address\":\"0x1234\",\"proof_hash\":\"{}\",\"timestamp\":0}}",
        hash
    );
    assert!(generator.verify_proof(&stale));
}

#[test]
fn verify_accepts_reordered_fields_and_whitespace() {
    let generator = ProofGenerator::new("deadbeef");
    let proof = generator.generate_proof("0x1234");
    let parsed: serde_json::Value = serde_json::from_str(&proof).unwrap();
    let hash = parsed["proof_hash"].as_str().unwrap();
    let ts = parsed["timestamp"].as_u64().unwrap();
    let reordered = format!(
        " {{ \"timestamp\" : {} , \"proof_hash\" : \"{}\" , \"contract_address\" : \"0x1234\" }} ",
        ts, hash
    );
    assert!(generator.verify_proof(&reordered));
}

#[test]
fn verify_rejects_malformed_records() {
    let generator = ProofGenerator::new("deadbeef");
    assert!(!generator.verify_proof(""));
    assert!(!generator.verify_proof("not json"));
    assert!(!generator.verify_proof("{}"));
    assert!(!generator.verify_proof("{\"contract_address\":\"0x1234\"}"));
    assert!(!generator.verify_proof("[1,2,3]"));
    let proof = generator.generate_proof("0x1234");
    let truncated = &proof[..proof.len() - 1];
    assert!(!generator.verify_proof(truncated));
}

#[test]
fn malformed_challenge_degrades_to_empty_buffer() {
    let generator = ProofGenerator::new("not-hex!");
    let proof = generator.generate_proof("0xabcd");
    assert!(generator.verify_proof(&proof));
    let parsed: serde_json::Value = serde_json::from_str(&proof).unwrap();
    let expected = hex::encode(sha2::Sha256::digest("0xabcd".as_bytes()));
    assert_eq!(parsed["proof_hash"].as_str().unwrap(), expected);
}

#[test]
fn wrong_challenge_fails_verification() {
    let generator = ProofGenerator::new("deadbeef");
    let other = ProofGenerator::new("deadbeee");
    let proof = generator.generate_proof("0x1234");
    assert!(!other.verify_proof(&proof));
}

#[test]
fn addresses_needing_escapes_round_trip() {
    let generator = ProofGenerator::new("deadbeef");
    for addr in ["quote\"inside", "back\\slash", "tab\there", "caf\u{e9}-\u{1F600}"] {
        let proof = generator.generate_proof(addr);
        assert!(generator.verify_proof(&proof));
        let parsed: serde_json::Value = serde_json::from_str(&proof).unwrap();
        assert_eq!(parsed["contract_address"].as_str().unwrap(), addr);
    }
}

#[test]
fn empty_challenge_and_empty_address() {
    let generator = ProofGenerator::new("");
    let proof = generator.generate_proof("");
    assert!(generator.verify_proof(&proof));
    let parsed: serde_json::Value = serde_json::from_str(&proof).unwrap();
    let expected = hex::encode(sha2::Sha256::digest(b""));
    assert_eq!(parsed["proof_hash"].as_str().unwrap(), expected);
}

#[test]
fn wire_shape_is_the_documented_object() {
    let generator = ProofGenerator::new("deadbeef");
    let proof = generator.generate_proof("0x1234");
    let parsed: serde_json::Value = serde_json::from_str(&proof).unwrap();
    let hash = parsed["proof_hash"].as_str().unwrap();
    let ts = parsed["timestamp"].as_u64().unwrap();
    let expected = format!(
        "{{\"contract_address\":\"0x1234\",\"proof_hash\":\"{}\",\"timestamp\":{}}}",
        hash, ts
    );
    assert_eq!(proof, expected);
}
