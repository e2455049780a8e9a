use cuemap::engine::CueMapEngine;
use cuemap::grounding::GroundingEngine;
use cuemap::SCALE;

#[test]
fn test_memory_cues_storage() {
    let mut engine = CueMapEngine::new();
    let id = engine.add_memory(
        "test content".to_string(),
        vec!["topic:test".to_string()],
        Vec::new(),
        1,
    );
    let mem = engine.get_memory(&id).expect("stored memory should be found");
    assert_eq!(mem.content, "test content");
    assert!(mem.cues.contains(&"topic:test".to_string()));
}

#[test]
fn test_attach_cues() {
    let mut engine = CueMapEngine::new();
    let id = engine.add_memory("test content".to_string(), vec!["a".to_string()], Vec::new(), 1);
    assert!(engine.attach_cues(&id, vec!["b".to_string(), "c".to_string()]));
    let results = engine.recall(vec!["b".to_string()], 10, false, 2);
    assert_eq!(results.len(), 1);
    assert_eq!(results[0].memory_id, id);
    assert!(!engine.attach_cues(&id, vec!["a".to_string(), "b".to_string()]));
}

#[test]
fn test_freshness_boost() {
    let mut engine = CueMapEngine::new();
    engine.add_memory("oldest".to_string(), vec!["topic".to_string()], Vec::new(), 1);
    engine.add_memory("newest".to_string(), vec!["topic".to_string()], Vec::new(), 2);
    let results = engine.recall(vec!["topic".to_string()], 10, false, 3);
    assert_eq!(results.len(), 2);
    assert_eq!(results[0].content, "newest");
    assert!(results[0].recency_score > 3 * SCALE / 2);
    assert!(results[1].recency_score < SCALE);
}

#[test]
fn test_log_frequency_scaling() {
    let mut engine = CueMapEngine::new();
    let id1 = engine.add_memory("frequent".to_string(), vec!["cue".to_string()], Vec::new(), 1);
    for _ in 0..100 {
        assert!(engine.reinforce_memory(&id1, vec!["cue".to_string()], 2));
    }
    let id2 = engine.add_memory("rare".to_string(), vec!["cue".to_string()], Vec::new(), 3);
    for _ in 0..10 {
        assert!(engine.reinforce_memory(&id2, vec!["cue".to_string()], 4));
    }
    let results = engine.recall(vec!["cue".to_string()], 10, false, 5);
    let r1 = results.iter().find(|r| r.memory_id == id1).expect("first memory ranked");
    let r2 = results.iter().find(|r| r.memory_id == id2).expect("second memory ranked");
    assert_eq!(r1.reinforcement_score, 2 * SCALE);
    assert_eq!(r2.reinforcement_score, SCALE);
}

#[test]
fn test_scoring_gradient() {
    let mut engine = CueMapEngine::new();
    let mut ids: Vec<String> = Vec::new();
    for i in 0..5 {
        let id = engine.add_memory(
            format!("content {}", i),
            vec!["grad".to_string()],
            Vec::new(),
            i + 1,
        );
        ids.push(id);
    }
    let results = engine.recall(vec!["grad".to_string()], 10, false, 10);
    assert_eq!(results.len(), 5);
    for w in results.windows(2) {
        assert!(
            w[0].score >= w[1].score,
            "Score for {} should be > than {}",
            w[0].memory_id,
            w[1].memory_id
        );
    }
    assert_eq!(results[0].memory_id, ids[4]);
}

#[test]
fn test_reinforce_unknown_id() {
    let mut engine = CueMapEngine::new();
    assert!(!engine.reinforce_memory("missing", vec!["cue".to_string()], 1));
}

#[test]
fn test_delete_memory_clears_index() {
    let mut engine = CueMapEngine::new();
    let id = engine.add_memory("gone".to_string(), vec!["zap".to_string()], Vec::new(), 1);
    assert!(engine.delete_memory(&id));
    assert!(engine.get_memory(&id).is_none());
    let results = engine.recall(vec!["zap".to_string()], 10, false, 2);
    assert_eq!(results.len(), 0);
    assert!(!engine.delete_memory(&id));
}

#[test]
fn test_reinforce_move_to_end_idempotent() {
    let mut engine = CueMapEngine::new();
    let _a = engine.add_memory("a".to_string(), vec!["k".to_string()], Vec::new(), 1);
    let b = engine.add_memory("b".to_string(), vec!["k".to_string()], Vec::new(), 2);
    let _c = engine.add_memory("c".to_string(), vec!["k".to_string()], Vec::new(), 3);
    engine.reinforce_memory(&b, vec!["k".to_string()], 4);
    let once = engine.recall(vec!["k".to_string()], 10, false, 5);
    engine.reinforce_memory(&b, vec!["k".to_string()], 6);
    let twice = engine.recall(vec!["k".to_string()], 10, false, 7);
    let order_once: Vec<&String> = once.iter().map(|r| &r.content).collect();
    let order_twice: Vec<&String> = twice.iter().map(|r| &r.content).collect();
    assert_eq!(order_once, order_twice);
    assert_eq!(once[0].content, "b");
}

#[test]
fn test_min_intersection_filter() {
    let mut engine = CueMapEngine::new();
    engine.add_memory(
        "both".to_string(),
        vec!["x".to_string(), "y".to_string()],
        Vec::new(),
        1,
    );
    engine.add_memory("only x".to_string(), vec!["x".to_string()], Vec::new(), 2);
    let results = engine.recall_with_min_intersection(
        vec!["x".to_string(), "y".to_string()],
        10,
        false,
        Some(2),
        3,
    );
    assert_eq!(results.len(), 1);
    assert_eq!(results[0].content, "both");
}

#[test]
fn test_grounding_budget() {
    let mut engine = CueMapEngine::new();
    engine.add_memory("abcdefgh".to_string(), vec!["g".to_string()], Vec::new(), 1);
    engine.add_memory("abcdefghijklmnop".to_string(), vec!["g".to_string()], Vec::new(), 2);
    let results = engine.recall(vec!["g".to_string()], 10, false, 3);
    let (selected, excluded) = GroundingEngine::select_memories(results, 5);
    let total: u64 = selected.iter().map(|s| s.estimated_tokens as u64).sum();
    assert!(total <= 5);
    assert!(excluded.len() >= 1);
    let block = GroundingEngine::format_context_block(&selected);
    assert!(block.starts_with("[VERIFIED CONTEXT]"));
    assert!(block.contains("Use only VERIFIED CONTEXT"));
}

#[test]
fn test_snapshot_roundtrip() {
    let mut engine = CueMapEngine::new();
    let id = engine.add_memory(
        "persist me".to_string(),
        vec!["save:true".to_string()],
        Vec::new(),
        1,
    );
    let mems = engine.export_memories();
    let cues = engine.export_cue_index();
    let mut restored = CueMapEngine::from_entries(mems, cues);
    let found = restored.get_memory(&id).expect("Should load successfully");
    assert_eq!(found.content, "persist me");
    let results = restored.recall(vec!["save:true".to_string()], 10, false, 2);
    assert_eq!(results.len(), 1);
    assert_eq!(results[0].memory_id, id);
}
