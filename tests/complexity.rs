use constitution_dao_core::channel_a::complexity::{
    check_complexity, complexity_of_outcome, compute_complexity, max_complexity,
};
use constitution_dao_core::types::config::MAX_COMPLEXITY;

#[test]
fn test_simple_payload_low_complexity() {
    let payload = b"transfer 100 tokens";
    let score = compute_complexity(payload);

    assert!(score < 100);
    assert!(check_complexity(score));
}

#[test]
fn test_repetitive_payload_compresses_well() {
    let repetitive = "transfer ".repeat(100);
    let score = compute_complexity(repetitive.as_bytes());

    assert!(score < 100);
}

#[test]
fn pseudo_random_payload_high_complexity() {
    // bytes of a 64-bit xorshift generator: no repetition for DEFLATE to exploit
    let mut state: u64 = 0x9E37_79B9_7F4A_7C15;
    let random: Vec<u8> = (0..20000)
        .map(|_| {
            state ^= state << 13;
            state ^= state >> 7;
            state ^= state << 17;
            (state >> 24) as u8
        })
        .collect();
    let score = compute_complexity(&random[..10000]);
    assert!(score > 5000);
    // twenty thousand such bytes cannot pass the threshold
    assert!(!check_complexity(compute_complexity(&random)));
}

// The original input of a test expecting a score above 5000: `(i * 17 + 31) as u8`
// repeats every 256 bytes, so DEFLATE at any level compresses it to a small
// fraction of its 10,000 bytes and that expectation cannot hold. This asserts what
// the score of that input actually is; the high-entropy case is covered above.
#[test]
fn periodic_payload_compresses_well() {
    let periodic: Vec<u8> = (0..10000).map(|i: u32| (i * 17 + 31) as u8).collect();
    let score = compute_complexity(&periodic);
    assert!(score < 1000);
}

#[test]
fn test_spec_test_vector_range() {
    let payload = r#"{"action":"transfer","amount":100}."#.to_string()
        + "transfer 100 tokens to community fund";
    let score = compute_complexity(payload.as_bytes());

    assert!(score >= 50 && score <= 200, "Score {} not in expected range", score);
}

#[test]
fn test_empty_payload() {
    let score = compute_complexity(b"");
    assert!(score > 0);
    assert!(score < 50);
}

#[test]
fn test_check_complexity_boundary() {
    assert!(check_complexity(MAX_COMPLEXITY));
    assert!(check_complexity(MAX_COMPLEXITY - 1));
    assert!(!check_complexity(MAX_COMPLEXITY + 1));
}

#[test]
fn threshold_is_ten_thousand() {
    assert!(check_complexity(10_000));
    assert!(!check_complexity(10_001));
    assert_eq!(max_complexity(), 10_000);
}

#[test]
fn compression_outcome_scores() {
    assert_eq!(complexity_of_outcome(&Some(vec![1, 2, 3])), 3);
    assert_eq!(complexity_of_outcome(&Some(Vec::new())), 0);
    assert_eq!(complexity_of_outcome(&None), u64::MAX);
    assert!(!check_complexity(complexity_of_outcome(&None)));
}

#[test]
fn score_is_the_zlib_stream_length() {
    // the zlib stream of an empty input: 2 header bytes, an empty final block,
    // and the 4-byte Adler-32 trailer
    let score = compute_complexity(b"");
    assert!(score >= 8 && score <= 11);
    let long = vec![b'a'; 100_000];
    assert!(compute_complexity(&long) < 1_000);
}
