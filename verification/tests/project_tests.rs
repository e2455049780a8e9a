use cuemap::multi_tenant::MultiTenantEngine;
use cuemap::normalization::NormalizationConfig;
use cuemap::projects::ProjectContext;
use cuemap::record;
use cuemap::taxonomy::Taxonomy;
use cuemap::SCALE;

fn fresh_project() -> ProjectContext {
    ProjectContext::new(NormalizationConfig::default(), Taxonomy::default())
}

#[test]
fn test_project_creation() {
    let ctx = fresh_project();
    let stats = ctx.main.get_stats();
    assert_eq!(stats.total_memories, 0);
    assert_eq!(stats.total_cues, 0);
    assert!(stats.cues.is_empty());
}

#[test]
fn test_store_memory_validates() {
    let mut ctx = fresh_project();
    let (id, report) = ctx.store_memory(
        "test".to_string(),
        vec!["Cue:One ".to_string(), "bare".to_string()],
        Vec::new(),
        1,
    );
    assert_eq!(report.accepted, vec!["cue:one".to_string()]);
    assert_eq!(report.rejected.len(), 1);
    assert_eq!(report.rejected[0].code, "bad_format");
    let mem = ctx.main.get_memory(&id).expect("stored");
    assert!(mem.cues.contains(&"cue:one".to_string()));
}

#[test]
fn test_alias_expansion_and_weighting() {
    let mut ctx = fresh_project();
    // register an active alias: pay rewrites to service:payments at 0.85
    let content = record::format_record("pay", "service:payments", 850000, "active", "manual");
    ctx.aliases.upsert_memory_with_id(
        "alias-1".to_string(),
        content,
        vec![
            "type:alias".to_string(),
            "from:pay".to_string(),
            "to:service:payments".to_string(),
            "status:active".to_string(),
        ],
        Vec::new(),
        false,
        1,
    );
    let m1 = ctx.main.add_memory("Direct pay".to_string(), vec!["pay".to_string()], Vec::new(), 2);
    let m2 = ctx.main.add_memory(
        "Payments service".to_string(),
        vec!["service:payments".to_string()],
        Vec::new(),
        3,
    );
    let expanded = ctx.expand_query_cues(vec!["pay".to_string()], 4);
    assert_eq!(expanded.len(), 2);
    assert_eq!(expanded[0].0, "pay");
    assert_eq!(expanded[0].1, SCALE);
    assert_eq!(expanded[1].0, "service:payments");
    assert_eq!(expanded[1].1, 850000);
    let results = ctx.main.recall_weighted(expanded, 10, false, None, true, 5);
    assert_eq!(results.len(), 2);
    assert_eq!(results[0].memory_id, m1);
    assert_eq!(results[1].memory_id, m2);
    let explain = results[1].explain.as_ref().expect("Explain should be present");
    assert_eq!(explain.intersection_weighted, 850000);
}

#[test]
fn test_explain_output_structure() {
    let mut ctx = fresh_project();
    ctx.main.add_memory("test".to_string(), vec!["tag:test".to_string()], Vec::new(), 1);
    let results = ctx.main.recall_weighted(
        vec![("tag:test".to_string(), SCALE)],
        10,
        false,
        None,
        true,
        2,
    );
    assert_eq!(results.len(), 1);
    let explain = results[0].explain.as_ref().expect("Explain should be present");
    assert_eq!(explain.intersection_score, 100 * SCALE);
    assert!(explain.recency_component > 0);
    assert!(explain.weight_recency > 0);
    assert_eq!(explain.match_count, 1);
}

#[test]
fn test_alias_proposal_job() {
    let mut ctx = fresh_project();
    for i in 0..25 {
        ctx.main.add_memory(
            format!("Mem {}", i),
            vec!["prod".to_string(), "production".to_string()],
            Vec::new(),
            i + 1,
        );
    }
    ctx.propose_aliases(200);
    let proposals = ctx.aliases.recall(vec!["type:alias".to_string()], 10, false, 201);
    assert!(proposals.len() >= 1, "Should have proposed at least one alias");
    let (to, weight) = record::parse_record(&proposals[0].content).expect("record reads back");
    assert!(to == "prod" || to == "production");
    assert!(weight.expect("weight reads back") >= 900000);
    assert!(proposals[0].content.contains("\"status\":\"proposed\""));
    assert!(proposals[0].content.contains("overlap_analysis"));
}

#[test]
fn test_lexicon_training_and_recall() {
    let mut ctx = fresh_project();
    let (id, _) = ctx.store_memory(
        "The payments service is experiencing high latency.".to_string(),
        vec!["service:payments".to_string(), "status:slow".to_string()],
        Vec::new(),
        1,
    );
    ctx.train_lexicon_from_memory(&id, 2);
    let hits = ctx.lexicon.recall(
        cuemap::nl::tokenize_to_cues("payments latency slow"),
        8,
        true,
        3,
    );
    assert!(hits.len() >= 1);
    let contents: Vec<&String> = hits.iter().map(|h| &h.content).collect();
    assert!(contents.contains(&&"service:payments".to_string()));
}

#[test]
fn test_multi_tenant_isolation() {
    let mut mt = MultiTenantEngine::new();
    mt.store_in_project(
        "proj1",
        "Project 1 content".to_string(),
        vec!["cue:one".to_string()],
        Vec::new(),
        1,
    );
    mt.store_in_project(
        "proj2",
        "Project 2 content".to_string(),
        vec!["cue:two".to_string()],
        Vec::new(),
        2,
    );
    let r1 = mt.recall_in_project("proj1", vec!["cue:one".to_string()], 10, false, 3);
    assert_eq!(r1.len(), 1);
    assert_eq!(r1[0].content, "Project 1 content");
    let r2 = mt.recall_in_project("proj2", vec!["cue:one".to_string()], 10, false, 4);
    assert_eq!(r2.len(), 0);
    let r3 = mt.recall_in_project("proj1", vec!["cue:two".to_string()], 10, false, 5);
    assert_eq!(r3.len(), 0);
}

#[test]
fn test_delete_project() {
    let mut mt = MultiTenantEngine::new();
    mt.store_in_project("to_delete", "x".to_string(), vec!["c:v".to_string()], Vec::new(), 1);
    assert!(mt.delete_project("to_delete"));
    assert!(!mt.delete_project("to_delete"));
    assert!(mt.find_project("to_delete").is_none());
}

#[test]
fn test_context_isolation() {
    let mut a = fresh_project();
    let mut b = fresh_project();
    a.store_memory("only in a".to_string(), vec!["proj:data".to_string()], Vec::new(), 1);
    let ra = a.main.recall(vec!["proj:data".to_string()], 10, false, 2);
    let rb = b.main.recall(vec!["proj:data".to_string()], 10, false, 3);
    assert_eq!(ra.len(), 1);
    assert_eq!(rb.len(), 0);
    assert_eq!(b.main.get_stats().total_memories, 0);
}

#[test]
fn test_verify_file_prunes_stale_chunks() {
    let mut ctx = fresh_project();
    ctx.main.upsert_memory_with_id(
        "file:/tmp/a:1".to_string(),
        "chunk one".to_string(),
        vec!["path:/tmp/a".to_string()],
        Vec::new(),
        false,
        1,
    );
    ctx.main.upsert_memory_with_id(
        "file:/tmp/a:2".to_string(),
        "chunk two".to_string(),
        vec!["path:/tmp/a".to_string()],
        Vec::new(),
        false,
        2,
    );
    ctx.verify_file("/tmp/a", vec!["file:/tmp/a:2".to_string()]);
    assert!(ctx.main.get_memory("file:/tmp/a:1").is_none());
    assert!(ctx.main.get_memory("file:/tmp/a:2").is_some());
    ctx.verify_file("/tmp/a", Vec::new());
    assert!(ctx.main.get_memory("file:/tmp/a:2").is_none());
}
