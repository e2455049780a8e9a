use cuemap::chunker::Chunker;
use cuemap::chunker::ChunkerType;
use cuemap::grounding::GroundingEngine;
use cuemap::jobs::is_lexicon_trainable;
use cuemap::multi_tenant::validate_project_id;
use cuemap::nl::normalize_text;
use cuemap::nl::tokenize_to_cues;
use cuemap::normalization::normalize_cue;
use cuemap::normalization::NormalizationConfig;
use cuemap::normalization::RewriteRule;
use cuemap::record;
use cuemap::taxonomy::validate_cues;
use cuemap::taxonomy::Taxonomy;

#[test]
fn test_detect_type() {
    assert_eq!(Chunker::detect_type("test.py"), ChunkerType::Python);
    assert_eq!(Chunker::detect_type("test.csv"), ChunkerType::Csv);
    assert_eq!(Chunker::detect_type("test.pdf"), ChunkerType::Pdf);
    assert_eq!(Chunker::detect_type("test.docx"), ChunkerType::Office);
}

#[test]
fn test_project_id_validation() {
    assert!(validate_project_id("valid-project-123"));
    assert!(validate_project_id("Project_Alpha"));
    assert!(!validate_project_id("project@id"));
    assert!(!validate_project_id("ab"));
    assert!(!validate_project_id(&"x".repeat(65)));
}

#[test]
fn test_tokenizer_basic() {
    let cues = tokenize_to_cues("The quick brown fox");
    assert!(cues.contains(&"tok:quick".to_string()));
    assert!(cues.contains(&"tok:fox".to_string()));
    assert!(cues.contains(&"phr:quick_brown".to_string()));
}

#[test]
fn test_normalize_text() {
    assert_eq!(normalize_text("  HELLO   WORLD  "), "hello world");
    assert_eq!(normalize_text("Mixed-Case_With_Dots.com"), "mixed case with dots com");
}

#[test]
fn test_basic_normalization() {
    let config = NormalizationConfig::default();
    let (n, _) = normalize_cue("  TestCue  ", &config);
    assert_eq!(n, "testcue");
}

#[test]
fn test_rewrite_rules() {
    let config = NormalizationConfig {
        lowercase: true,
        trim: true,
        rewrite_rules: vec![RewriteRule {
            name: "service_prefix".to_string(),
            pattern: "^([a-z0-9_]+)-service$".to_string(),
            replace: "service:$1".to_string(),
        }],
    };
    let (n, trace) = normalize_cue("Payments-Service", &config);
    assert_eq!(n, "service:payments");
    assert!(trace.applied_rules.contains(&"service_prefix".to_string()));
}

#[test]
fn test_rewrite_chaining() {
    let config = NormalizationConfig {
        lowercase: true,
        trim: true,
        rewrite_rules: vec![
            RewriteRule {
                name: "replace_dash".to_string(),
                pattern: "-".to_string(),
                replace: "_".to_string(),
            },
            RewriteRule {
                name: "prefix_tag".to_string(),
                pattern: "^([a-z_]+)$".to_string(),
                replace: "tag:$1".to_string(),
            },
        ],
    };
    let (n, _) = normalize_cue("My-Value", &config);
    assert_eq!(n, "tag:my_value");
}

#[test]
fn test_prefix_deduplication() {
    let config = NormalizationConfig::default();
    let (n1, t1) = normalize_cue("lang:python:python", &config);
    assert_eq!(n1, "lang:python");
    assert!(t1.applied_rules.contains(&"dedupe_prefix".to_string()));
    let (n2, _) = normalize_cue("topic:payments:payments", &config);
    assert_eq!(n2, "topic:payments");
}

#[test]
fn test_format_validation() {
    let tax = Taxonomy::default();
    let report = validate_cues(
        vec!["valid:cue".to_string(), "invalid".to_string(), "incomplete:".to_string()],
        &tax,
    );
    assert_eq!(report.accepted, vec!["valid:cue".to_string()]);
    assert_eq!(report.rejected.len(), 2);
    assert!(report.rejected.iter().all(|r| r.code == "bad_format"));
}

#[test]
fn test_key_validation() {
    let tax = Taxonomy {
        allowed_keys: vec!["status".to_string(), "user".to_string()],
        allowed_values: Vec::new(),
        allowed_value_prefixes: Vec::new(),
    };
    let report = validate_cues(
        vec!["status:active".to_string(), "unknown:value".to_string()],
        &tax,
    );
    assert_eq!(report.accepted, vec!["status:active".to_string()]);
    assert_eq!(report.rejected.len(), 1);
    assert_eq!(report.rejected[0].code, "unknown_key");
}

#[test]
fn test_value_validation() {
    let tax = Taxonomy {
        allowed_keys: Vec::new(),
        allowed_values: vec![(
            "status".to_string(),
            vec!["active".to_string(), "pending".to_string()],
        )],
        allowed_value_prefixes: vec![("user".to_string(), vec!["id_".to_string()])],
    };
    let report = validate_cues(
        vec![
            "status:active".to_string(),
            "status:unknown".to_string(),
            "user:id_123".to_string(),
            "user:admin".to_string(),
        ],
        &tax,
    );
    assert_eq!(
        report.accepted,
        vec!["status:active".to_string(), "user:id_123".to_string()]
    );
    assert_eq!(report.rejected.len(), 2);
    assert!(report.rejected.iter().all(|r| r.code == "unknown_value"));
}

#[test]
fn test_lexicon_trainability() {
    assert!(is_lexicon_trainable("topic:programming"));
    assert!(is_lexicon_trainable("lang:python"));
    assert!(is_lexicon_trainable("type:function"));
    assert!(!is_lexicon_trainable("path:/users/kaan/test.py"));
    assert!(!is_lexicon_trainable("id:123"));
    assert!(!is_lexicon_trainable("memory_id:abc"));
    assert!(!is_lexicon_trainable("source:agent"));
    assert!(!is_lexicon_trainable("file:/tmp/foo"));
}

#[test]
fn test_estimate_tokens_rounding() {
    assert_eq!(GroundingEngine::estimate_tokens(""), 0);
    assert_eq!(GroundingEngine::estimate_tokens("abcd"), 1);
    assert_eq!(GroundingEngine::estimate_tokens("abcde"), 2);
}

#[test]
fn test_alias_record_roundtrip() {
    let s = record::format_record("pay", "service:payments", 850000, "active", "overlap_analysis");
    assert!(s.starts_with("{\"from\":\"pay\""));
    let parsed = record::parse_record(&s).expect("record should read back");
    assert_eq!(parsed.0, "service:payments");
    assert_eq!(parsed.1, Some(850000));
}

#[test]
fn test_markdown_chunking_blocks() {
    let chunks = Chunker::chunk_markdown("# One\nalpha\n# Two\nbeta");
    assert_eq!(chunks.len(), 2);
    assert_eq!(chunks[0].context, "One");
    assert!(chunks[0].content.contains("alpha"));
    assert_eq!(chunks[1].context, "Two");
}

#[test]
fn test_text_chunking_paragraphs() {
    let chunks = Chunker::chunk_text("first paragraph\n\nsecond paragraph");
    assert_eq!(chunks.len(), 2);
    assert!(chunks[0].content.contains("first"));
    assert!(chunks[1].content.contains("second"));
}

#[test]
fn test_snapshot_codec_roundtrip() {
    let mem = cuemap::structures::Memory {
        id: "m1".to_string(),
        content: "alpha beta".to_string(),
        created_at: 10,
        last_accessed: 20,
        reinforcement_count: 3,
        cues: vec!["topic:alpha".to_string(), "topic:beta".to_string()],
        metadata: vec![("source".to_string(), "test".to_string())],
    };
    let state = cuemap::persistence::PersistedState {
        version: cuemap::persistence::PERSISTENCE_VERSION,
        saved_at: 77,
        memories: vec![("m1".to_string(), mem)],
        cue_index: vec![("topic:alpha".to_string(), vec!["m1".to_string()])],
    };
    let bytes = cuemap::persistence::encode_state(&state);
    let back = cuemap::persistence::decode_state(&bytes).expect("image decodes");
    assert_eq!(back.version, state.version);
    assert_eq!(back.saved_at, 77);
    assert_eq!(back.memories.len(), 1);
    assert_eq!(back.memories[0].0, "m1");
    assert_eq!(back.memories[0].1.content, "alpha beta");
    assert_eq!(back.memories[0].1.cues.len(), 2);
    assert_eq!(back.cue_index.len(), 1);
    assert_eq!(back.cue_index[0].1, vec!["m1".to_string()]);
    let again = cuemap::persistence::encode_state(&back);
    assert_eq!(again, bytes);
    // a truncated image is refused
    assert!(cuemap::persistence::decode_state(&bytes[..bytes.len() - 1]).is_none());
    // a version the library does not write is refused
    let mut wrong = bytes.clone();
    wrong[0] = wrong[0].wrapping_add(1);
    assert!(cuemap::persistence::decode_state(&wrong).is_none());
}

#[test]
fn test_estimate_tokens_counts_bytes() {
    // five characters, seven UTF-8 bytes: the estimate follows the bytes
    assert_eq!(GroundingEngine::estimate_tokens("caf\u{e9}\u{e9}"), 2);
    assert_eq!(GroundingEngine::estimate_tokens("\u{e9}\u{e9}"), 1);
}

#[test]
fn test_choose_canonical_lex_tiebreak() {
    // both canonical: the lexicographically smaller becomes the target
    let (to, from) = cuemap::jobs::choose_canonical("key:beta", "key:alpha");
    assert_eq!(to, "key:alpha");
    assert_eq!(from, "key:beta");
    // neither canonical: same tie-break
    let (to2, from2) = cuemap::jobs::choose_canonical("zeta", "alpha");
    assert_eq!(to2, "alpha");
    assert_eq!(from2, "zeta");
    // a proper prefix comes first
    let (to3, _) = cuemap::jobs::choose_canonical("key:a", "key:ab");
    assert_eq!(to3, "key:a");
}

#[test]
fn test_check_entries_accepts_consistent_lists() {
    let mem = cuemap::structures::Memory {
        id: "m1".to_string(),
        content: "alpha".to_string(),
        created_at: 1,
        last_accessed: 2,
        reinforcement_count: 0,
        cues: vec!["topic:alpha".to_string()],
        metadata: Vec::new(),
    };
    let memories = vec![("m1".to_string(), mem)];
    let cue_index = vec![("topic:alpha".to_string(), vec!["m1".to_string()])];
    assert!(cuemap::persistence::check_entries(&memories, &cue_index));
}

#[test]
fn test_check_entries_rejects_broken_lists() {
    let mem = cuemap::structures::Memory {
        id: "m1".to_string(),
        content: "alpha".to_string(),
        created_at: 1,
        last_accessed: 2,
        reinforcement_count: 0,
        cues: vec!["topic:alpha".to_string()],
        metadata: Vec::new(),
    };
    // the cue's index entry is missing
    let memories = vec![("m1".to_string(), mem.clone())];
    assert!(!cuemap::persistence::check_entries(&memories, &Vec::new()));
    // the index lists an id the store lacks
    let cue_index = vec![("topic:alpha".to_string(), vec!["m1".to_string(), "ghost".to_string()])];
    let memories2 = vec![("m1".to_string(), mem.clone())];
    assert!(!cuemap::persistence::check_entries(&memories2, &cue_index));
    // a non-canonical cue is refused
    let mut bad = mem;
    bad.cues = vec!["Topic:Alpha".to_string()];
    let memories3 = vec![("m1".to_string(), bad)];
    let cue_index3 = vec![("Topic:Alpha".to_string(), vec!["m1".to_string()])];
    assert!(!cuemap::persistence::check_entries(&memories3, &cue_index3));
}
