//! Grounding: assemble a token-budgeted, cited context block from a
//! ranked result list, with a reproducibility proof. Selection is greedy
//! in rank order; which results are taken, every copied field, and the
//! block's exact text are all stated.

use crate::engine::RecallResult;
use crate::fixed::SCALE;
use crate::text;
use vstd::prelude::*;

verus! {

/// One selected context item with its scoring components.
pub struct SelectedItem {
    pub memory_id: String,
    pub content: String,
    pub score: u64,
    pub intersection_count: usize,
    pub recency_component: u64,
    pub reinforcement_component: u64,
    pub source: String,
    pub timestamp: String,
    pub estimated_tokens: u32,
    pub why: String,
}

/// A result that did not fit the remaining budget.
pub struct ExcludedItem {
    pub memory_id: String,
    pub score: u64,
    pub reason: String,
}

/// The reproducibility proof a grounded recall hands out.
pub struct GroundingProof {
    pub trace_id: String,
    pub query_text: String,
    pub normalized_query: Vec<String>,
    pub expanded_cues: Vec<(String, u64)>,
    pub token_budget: u32,
    pub selected: Vec<SelectedItem>,
    pub excluded_top: Vec<ExcludedItem>,
}

/// The token estimate of a text: one token per four bytes of its UTF-8
/// form, rounded up (and capped at the u32 range).
pub open spec fn est_tokens_spec(c: Seq<char>) -> nat {
    let n = vstd::utf8::encode_utf8(c).len();
    if (n + 3) / 4 > u32::MAX {
        u32::MAX as nat
    } else {
        (n + 3) / 4
    }
}

/// The summed token estimates of selected items.
pub open spec fn sum_tokens(sel: Seq<SelectedItem>) -> nat
    decreases sel.len(),
{
    if sel.len() == 0 {
        0
    } else {
        sum_tokens(sel.drop_last()) + (sel.last().estimated_tokens as nat)
    }
}

/// The first value under a metadata key, if any.
pub open spec fn meta_get(md: Seq<(Seq<char>, Seq<char>)>, key: Seq<char>) -> Option<Seq<char>>
    decreases md.len(),
{
    if md.len() == 0 {
        None
    } else if md[0].0 == key {
        Some(md[0].1)
    } else {
        meta_get(md.drop_first(), key)
    }
}

/// The metadata value under a key, or the default.
pub open spec fn meta_or(
    md: Seq<(Seq<char>, Seq<char>)>,
    key: Seq<char>,
    default: Seq<char>,
) -> Seq<char> {
    match meta_get(md, key) {
        Some(v) => v,
        None => default,
    }
}

/// The indices the greedy pass selects, scanning in rank order with the
/// budget spent so far.
pub open spec fn sel_indices(results: Seq<RecallResult>, budget: u32, i: int, used: nat) -> Seq<
    int,
>
    decreases results.len() - i,
{
    if i < 0 || i >= results.len() {
        Seq::empty()
    } else {
        let t = est_tokens_spec(results[i].content@);
        if used + t <= budget {
            seq![i] + sel_indices(results, budget, i + 1, used + t)
        } else {
            sel_indices(results, budget, i + 1, used)
        }
    }
}

/// A score written with two decimal places.
pub open spec fn fixed2_spec(v: u64) -> Seq<char> {
    text::dec_spec((v / SCALE) as nat) + seq!['.'] + seq![
        text::digit_char(((v % SCALE) / 100000) as nat),
        text::digit_char((((v % SCALE) / 10000) % 10) as nat),
    ]
}

/// The per-item explanation: rank, score, and match count.
pub open spec fn why_spec(rank: nat, score: u64, matches: nat) -> Seq<char> {
    "Ranked #"@ + text::dec_spec(rank) + " with score "@ + fixed2_spec(score) + " ("@
        + text::dec_spec(matches) + " matches)"@
}

/// The reason an excluded item reports.
pub open spec fn excluded_reason_spec(needs: u32, has: u32) -> Seq<char> {
    "Exceeds remaining token budget (needs "@ + text::dec_spec(needs as nat) + ", has "@
        + text::dec_spec(has as nat) + ")"@
}

/// What one selected item holds: the result's fields, the metadata's
/// source and timestamp (with their defaults), the content's token
/// estimate, and the ranked explanation.
pub open spec fn selected_item_ok(s: SelectedItem, r: RecallResult, rank: nat) -> bool {
    let md = r.metadata@.map_values(|kv: (String, String)| (kv.0@, kv.1@));
    &&& s.memory_id@ == r.memory_id@
    &&& s.content@ == r.content@
    &&& s.score == r.score
    &&& s.intersection_count == r.intersection_count
    &&& s.recency_component == r.recency_score
    &&& s.reinforcement_component == r.reinforcement_score
    &&& s.source@ == meta_or(md, "source"@, "unknown"@)
    &&& s.timestamp@ == meta_or(md, "timestamp"@, "2025-01-01T00:00:00Z"@)
    &&& s.estimated_tokens == est_tokens_spec(r.content@)
    &&& s.why@ == why_spec(rank, r.score, r.intersection_count as nat)
}

pub struct GroundingEngine;

impl GroundingEngine {
    /// Estimate tokens: one per four UTF-8 bytes, rounded up.
    pub fn estimate_tokens(content: &str) -> (r: u32)
        ensures
            r == est_tokens_spec(content@),
    {
        let bytes = content.as_bytes();
        let n = bytes.len();
        let q = n / 4;
        let est: usize = if n % 4 == 0 {
            q
        } else {
            q + 1
        };
        proof {
            vstd::arithmetic::div_mod::lemma_fundamental_div_mod(n as int, 4);
            if n % 4 == 0 {
                vstd::arithmetic::div_mod::lemma_fundamental_div_mod_converse_div(
                    n + 3,
                    4,
                    n as int / 4,
                    3,
                );
            } else {
                vstd::arithmetic::div_mod::lemma_fundamental_div_mod_converse_div(
                    n + 3,
                    4,
                    n as int / 4 + 1,
                    n as int % 4 - 1,
                );
            }
            assert(est == (n + 3) / 4);
        }
        if est > u32::MAX as usize {
            u32::MAX
        } else {
            est as u32
        }
    }

    /// Greedy selection in rank order: a result joins exactly when its
    /// estimate fits the remaining budget; each selected item copies the
    /// result's fields and cites it; up to five that did not fit are
    /// reported with the exact reason. The selected estimates never sum
    /// past the budget.
    pub fn select_memories(
        results: Vec<RecallResult>,
        token_budget: u32,
    ) -> (r: (Vec<SelectedItem>, Vec<ExcludedItem>))
        ensures
            sum_tokens(r.0@) <= token_budget,
            r.0@.len() == sel_indices(results@, token_budget, 0, 0).len(),
            forall|k: int|
                0 <= k < r.0@.len() ==> selected_item_ok(
                    #[trigger] r.0@[k],
                    results@[sel_indices(results@, token_budget, 0, 0)[k]],
                    (k + 1) as nat,
                ),
            r.1@.len() <= 5,
            forall|k: int|
                0 <= k < r.1@.len() ==> exists|i: int|
                    0 <= i < results@.len() && (#[trigger] r.1@[k]).memory_id@ == results@[
                        i
                    ].memory_id@ && r.1@[k].score == results@[i].score,
    {
        let ghost full = sel_indices(results@, token_budget, 0, 0);
        let mut selected: Vec<SelectedItem> = Vec::new();
        let mut excluded: Vec<ExcludedItem> = Vec::new();
        let mut current: u32 = 0;
        let mut i: usize = 0;
        while i < results.len()
            invariant
                i <= results@.len(),
                full == sel_indices(results@, token_budget, 0, 0),
                full =~= selected_idx_of(selected@.len() as int, full) + sel_indices(
                    results@,
                    token_budget,
                    i as int,
                    current as nat,
                ),
                selected@.len() <= i,
                full.len() >= selected@.len(),
                forall|k: int|
                    0 <= k < selected@.len() ==> 0 <= #[trigger] full[k] < results@.len(),
                forall|k: int|
                    0 <= k < selected@.len() ==> selected_item_ok(
                        #[trigger] selected@[k],
                        results@[full[k]],
                        (k + 1) as nat,
                    ),
                excluded@.len() <= 5,
                forall|k: int|
                    0 <= k < excluded@.len() ==> exists|t: int|
                        0 <= t < results@.len() && (#[trigger] excluded@[k]).memory_id@
                            == results@[t].memory_id@ && excluded@[k].score == results@[t].score,
                sum_tokens(selected@) == current,
                current <= token_budget,
            decreases results@.len() - i,
        {
            let item = &results[i];
            let tokens = Self::estimate_tokens(item.content.as_str());
            proof {
                assert(sel_indices(results@, token_budget, i as int, current as nat)
                    == if current as nat + est_tokens_spec(results@[i as int].content@)
                    <= token_budget {
                    seq![i as int] + sel_indices(
                        results@,
                        token_budget,
                        i as int + 1,
                        current as nat + est_tokens_spec(results@[i as int].content@),
                    )
                } else {
                    sel_indices(results@, token_budget, i as int + 1, current as nat)
                });
            }
            if tokens <= token_budget && current <= token_budget - tokens {
                let source = meta_lookup(&item.metadata, "source", "unknown");
                let timestamp = meta_lookup(&item.metadata, "timestamp", "2025-01-01T00:00:00Z");
                let why = why_text(selected.len() + 1, item.score, item.intersection_count);
                let ghost before = selected@;
                selected.push(
                    SelectedItem {
                        memory_id: item.memory_id.clone(),
                        content: item.content.clone(),
                        score: item.score,
                        intersection_count: item.intersection_count,
                        recency_component: item.recency_score,
                        reinforcement_component: item.reinforcement_score,
                        source,
                        timestamp,
                        estimated_tokens: tokens,
                        why,
                    },
                );
                proof {
                    assert(selected@.drop_last() =~= before);
                    assert(selected_idx_of(selected@.len() as int, full) =~= selected_idx_of(
                        before.len() as int,
                        full,
                    ).push(full[before.len() as int]));
                    assert(full[before.len() as int] == i as int);
                    assert(selected_item_ok(
                        selected@[before.len() as int],
                        results@[i as int],
                        (before.len() + 1) as nat,
                    ));
                }
                current = current + tokens;
            } else {
                if excluded.len() < 5 {
                    let mut reason = String::new();
                    reason.append("Exceeds remaining token budget (needs ");
                    let nd = text::dec_chars(tokens as u64);
                    let nds = text::to_string(&nd);
                    reason.append(nds.as_str());
                    reason.append(", has ");
                    let hd = text::dec_chars((token_budget - current) as u64);
                    let hds = text::to_string(&hd);
                    reason.append(hds.as_str());
                    reason.append(")");
                    let ghost eb = excluded@;
                    excluded.push(
                        ExcludedItem {
                            memory_id: item.memory_id.clone(),
                            score: item.score,
                            reason,
                        },
                    );
                    proof {
                        assert(excluded@.drop_last() =~= eb);
                        assert(excluded@[eb.len() as int].memory_id@ == results@[
                            i as int
                        ].memory_id@);
                    }
                }
            }
            i = i + 1;
        }
        proof {
            assert(sel_indices(results@, token_budget, results@.len() as int, current as nat)
                =~= Seq::<int>::empty());
            assert(full =~= selected_idx_of(selected@.len() as int, full));
            assert(full.len() == selected@.len());
        }
        (selected, excluded)
    }

    /// The verified-context block, exactly: the header, one citation line
    /// per selected item in order, and the usage rules; the fixed notice
    /// when nothing was selected.
    pub fn format_context_block(selected: &Vec<SelectedItem>) -> (r: String)
        ensures
            r@ == block_spec(selected@),
    {
        if selected.len() == 0 {
            let mut s = String::new();
            s.append(
                "[VERIFIED CONTEXT]\nNo verified memories found for this query.\n[/VERIFIED CONTEXT]",
            );
            return s;
        }
        let mut block = String::new();
        block.append("[VERIFIED CONTEXT]\n");
        let mut i: usize = 0;
        while i < selected.len()
            invariant
                i <= selected@.len(),
                selected@.len() > 0,
                block@ == "[VERIFIED CONTEXT]\n"@ + entries_spec(selected@.take(i as int), 0),
            decreases selected@.len() - i,
        {
            proof {
                lemma_entries_push(selected@.take(i as int), selected@[i as int], 0);
                assert(selected@.take(i + 1) =~= selected@.take(i as int).push(
                    selected@[i as int],
                ));
            }
            let item = &selected[i];
            block.append("(");
            let nd = text::dec_chars((i as u64) + 1);
            let nds = text::to_string(&nd);
            block.append(nds.as_str());
            block.append(") ");
            block.append(item.content.as_str());
            block.append(" (source=");
            block.append(item.memory_id.as_str());
            block.append(", score=");
            let sc = fixed2_text(item.score);
            block.append(sc.as_str());
            block.append(", ts=");
            block.append(item.timestamp.as_str());
            block.append(")\n");
            proof {
                assert(block@ =~= "[VERIFIED CONTEXT]\n"@ + entries_spec(
                    selected@.take(i + 1),
                    0,
                ));
            }
            i = i + 1;
        }
        block.append(
            "[/VERIFIED CONTEXT]\n\nRules:\n- Use only VERIFIED CONTEXT.\n- If the answer is not contained there, respond: \"Unknown\".\n- Cite sources by memory_id in brackets.",
        );
        proof {
            assert(selected@.take(selected@.len() as int) =~= selected@);
        }
        block
    }
}

/// The first `n` selected indices (a prefix helper for the loop above).
pub open spec fn selected_idx_of(n: int, full: Seq<int>) -> Seq<int> {
    full.take(n)
}

/// One citation line: `(rank) content (source=id, score=NN.NN, ts=T)`.
pub open spec fn entry_spec(idx: nat, item: SelectedItem) -> Seq<char> {
    "("@ + text::dec_spec(idx + 1) + ") "@ + item.content@ + " (source="@ + item.memory_id@
        + ", score="@ + fixed2_spec(item.score) + ", ts="@ + item.timestamp@ + ")\n"@
}

/// The citation lines of the items, numbered from `idx + 1` on.
pub open spec fn entries_spec(items: Seq<SelectedItem>, idx: nat) -> Seq<char>
    decreases items.len(),
{
    if items.len() == 0 {
        Seq::empty()
    } else {
        entries_spec(items.drop_last(), idx) + entry_spec(
            (idx + items.len() - 1) as nat,
            items.last(),
        )
    }
}

/// Appending an item appends its citation line.
pub proof fn lemma_entries_push(items: Seq<SelectedItem>, item: SelectedItem, idx: nat)
    ensures
        entries_spec(items.push(item), idx) == entries_spec(items, idx) + entry_spec(
            (idx + items.len()) as nat,
            item,
        ),
{
    assert(items.push(item).drop_last() =~= items);
    assert(items.push(item).last() == item);
}

/// The whole block: header, citation lines, usage rules; or the fixed
/// empty notice.
pub open spec fn block_spec(selected: Seq<SelectedItem>) -> Seq<char> {
    if selected.len() == 0 {
        "[VERIFIED CONTEXT]\nNo verified memories found for this query.\n[/VERIFIED CONTEXT]"@
    } else {
        "[VERIFIED CONTEXT]\n"@ + entries_spec(selected, 0)
            + "[/VERIFIED CONTEXT]\n\nRules:\n- Use only VERIFIED CONTEXT.\n- If the answer is not contained there, respond: \"Unknown\".\n- Cite sources by memory_id in brackets."@
    }
}

/// Assemble the reproducibility proof.
pub fn create_grounding_proof(
    trace_id: String,
    query_text: String,
    normalized_query: Vec<String>,
    expanded_cues: Vec<(String, u64)>,
    token_budget: u32,
    selected: Vec<SelectedItem>,
    excluded_top: Vec<ExcludedItem>,
) -> (r: GroundingProof)
    ensures
        r.trace_id == trace_id,
        r.query_text == query_text,
        r.normalized_query == normalized_query,
        r.expanded_cues == expanded_cues,
        r.token_budget == token_budget,
        r.selected == selected,
        r.excluded_top == excluded_top,
{
    GroundingProof {
        trace_id,
        query_text,
        normalized_query,
        expanded_cues,
        token_budget,
        selected,
        excluded_top,
    }
}

/// A metadata value, or the default when the key is absent.
fn meta_lookup(md: &Vec<(String, String)>, key: &str, default: &str) -> (r: String)
    ensures
        r@ == meta_or(md@.map_values(|kv: (String, String)| (kv.0@, kv.1@)), key@, default@),
{
    let ghost mv = md@.map_values(|kv: (String, String)| (kv.0@, kv.1@));
    let mut i: usize = 0;
    proof {
        assert(mv.skip(0) =~= mv);
    }
    while i < md.len()
        invariant
            i <= md@.len(),
            mv == md@.map_values(|kv: (String, String)| (kv.0@, kv.1@)),
            meta_get(mv, key@) == meta_get(mv.skip(i as int), key@),
        decreases md@.len() - i,
    {
        proof {
            assert(mv.skip(i as int).len() > 0);
            assert(mv.skip(i as int)[0] == mv[i as int]);
            assert(mv.skip(i as int).drop_first() =~= mv.skip(i + 1));
        }
        if text::str_eq(md[i].0.as_str(), key) {
            return md[i].1.clone();
        }
        i = i + 1;
    }
    proof {
        assert(mv.skip(md@.len() as int).len() == 0);
    }
    let mut s = String::new();
    s.append(default);
    s
}

/// A score written with two decimal places.
fn fixed2_text(v: u64) -> (r: String)
    ensures
        r@ == fixed2_spec(v),
{
    let whole = text::dec_chars(v / SCALE);
    let mut cs = whole;
    cs.push('.');
    let frac = v % SCALE;
    let d0 = frac / 100000;
    let d1 = (frac / 10000) % 10;
    let c0 = match d0 {
        0 => '0',
        1 => '1',
        2 => '2',
        3 => '3',
        4 => '4',
        5 => '5',
        6 => '6',
        7 => '7',
        8 => '8',
        _ => '9',
    };
    let c1 = match d1 {
        0 => '0',
        1 => '1',
        2 => '2',
        3 => '3',
        4 => '4',
        5 => '5',
        6 => '6',
        7 => '7',
        8 => '8',
        _ => '9',
    };
    cs.push(c0);
    cs.push(c1);
    proof {
        assert(c0 == text::digit_char(((v % SCALE) / 100000) as nat));
        assert(c1 == text::digit_char((((v % SCALE) / 10000) % 10) as nat));
        assert(cs@ =~= fixed2_spec(v));
    }
    text::to_string(&cs)
}

/// The per-item explanation: rank, score, and match count.
fn why_text(rank: usize, score: u64, matches: usize) -> (r: String)
    ensures
        r@ == why_spec(rank as nat, score, matches as nat),
{
    let mut s = String::new();
    s.append("Ranked #");
    let rd = text::dec_chars(rank as u64);
    let rds = text::to_string(&rd);
    s.append(rds.as_str());
    s.append(" with score ");
    let sc = fixed2_text(score);
    s.append(sc.as_str());
    s.append(" (");
    let md = text::dec_chars(matches as u64);
    let mds = text::to_string(&md);
    s.append(mds.as_str());
    s.append(" matches)");
    s
}

} // verus!
