use bytecode_inspect::BytecodeAnalyzer;
use sha2::Digest;

#[test]
fn test_bytecode_analyzer() {
    let analyzer = BytecodeAnalyzer::new("6080604052");
    assert_eq!(analyzer.length(), 5);
    assert!(!analyzer.hash().is_empty());
}

#[test]
fn hash_matches_sha256_digest() {
    let analyzer = BytecodeAnalyzer::new("6080604052");
    let expected = hex::encode(sha2::Sha256::digest(&[0x60u8, 0x80, 0x60, 0x40, 0x52]));
    assert_eq!(analyzer.hash(), expected);
}

#[test]
fn hash_is_64_lowercase_hex_and_deterministic() {
    let a1 = BytecodeAnalyzer::new("deadbeef");
    let a2 = BytecodeAnalyzer::new("deadbeef");
    let h1 = a1.hash();
    let h2 = a2.hash();
    assert_eq!(h1, h2);
    assert_eq!(a1.hash(), h1);
    assert_eq!(h1.len(), 64);
    for c in h1.chars() {
        assert!(('0'..='9').contains(&c) || ('a'..='f').contains(&c));
    }
}

#[test]
fn malformed_hex_degrades_to_empty_buffer() {
    let analyzer = BytecodeAnalyzer::new("zz");
    assert_eq!(analyzer.length(), 0);
    assert_eq!(
        analyzer.hash(),
        "e3b0c44298fc1c149afbf4c8996fb92427ae41e4649b934ca495991b7852b855"
    );
    let odd = BytecodeAnalyzer::new("123");
    assert_eq!(odd.length(), 0);
    let upper_ok = BytecodeAnalyzer::new("DEADBEEF");
    assert_eq!(upper_ok.length(), 4);
}

#[test]
fn length_counts_decoded_bytes() {
    assert_eq!(BytecodeAnalyzer::new("").length(), 0);
    assert_eq!(BytecodeAnalyzer::new("00").length(), 1);
    assert_eq!(BytecodeAnalyzer::new("deadbeef").length(), 4);
}

#[test]
fn extract_opcodes_returns_raw_buffer() {
    let analyzer = BytecodeAnalyzer::new("6080604052");
    assert_eq!(analyzer.extract_opcodes(), vec![0x60u8, 0x80, 0x60, 0x40, 0x52]);
}

#[test]
fn detect_patterns_reports_each_tag() {
    assert_eq!(
        BytecodeAnalyzer::new("60ff").detect_patterns(),
        "[\"selfdestruct_present\",\"has_runtime_code\"]"
    );
    assert_eq!(
        BytecodeAnalyzer::new("f4").detect_patterns(),
        "[\"delegatecall_present\",\"has_runtime_code\"]"
    );
    assert_eq!(
        BytecodeAnalyzer::new("fff4").detect_patterns(),
        "[\"selfdestruct_present\",\"delegatecall_present\",\"has_runtime_code\"]"
    );
    assert_eq!(
        BytecodeAnalyzer::new("6080604052").detect_patterns(),
        "[\"has_runtime_code\"]"
    );
    assert_eq!(BytecodeAnalyzer::new("").detect_patterns(), "[]");
    assert_eq!(BytecodeAnalyzer::new("zz").detect_patterns(), "[]");
}

fn entropy_of(analyzer: &BytecodeAnalyzer) -> f64 {
    let counts = analyzer.byte_counts();
    let total = analyzer.length();
    if total == 0 {
        return 0.0;
    }
    let len = total as f64;
    let mut e = 0.0f64;
    for c in counts {
        if c > 0 {
            let p = c as f64 / len;
            e -= p * p.log2();
        }
    }
    e
}

#[test]
fn entropy_of_empty_and_uniform_buffers() {
    assert_eq!(entropy_of(&BytecodeAnalyzer::new("")), 0.0);
    assert_eq!(entropy_of(&BytecodeAnalyzer::new("41414141")), 0.0);
    let mut all_bytes = String::new();
    for i in 0..256u32 {
        all_bytes.push_str(&format!("{:02x}", i));
    }
    let analyzer = BytecodeAnalyzer::new(&all_bytes);
    assert_eq!(analyzer.length(), 256);
    assert_eq!(entropy_of(&analyzer), 8.0);
}

#[test]
fn byte_counts_histogram_is_exact() {
    let analyzer = BytecodeAnalyzer::new("60806040526080");
    let counts = analyzer.byte_counts();
    assert_eq!(counts.len(), 256);
    assert_eq!(counts[0x60], 3);
    assert_eq!(counts[0x80], 2);
    assert_eq!(counts[0x40], 1);
    assert_eq!(counts[0x52], 1);
    assert_eq!(counts.iter().sum::<usize>(), 7);
}
