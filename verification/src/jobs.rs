//! Background jobs: lexicon training, applying proposed cues, chunk
//! ingestion, stale-file pruning, and alias proposal. The host's consumer
//! loop performs any outside calls (an LLM proposing cues, file reads)
//! and hands the plain results to the appliers here.

use crate::fixed::SCALE;
use crate::ext;
use crate::nl;
use crate::projects::ProjectContext;
use crate::projects::normalized_with;
use crate::record;
use crate::taxonomy;
use crate::text;
use vstd::prelude::*;

verus! {

/// The self-describing background tasks.
pub enum Job {
    LlmProposeCues { project_id: String, memory_id: String, content: String },
    TrainLexiconFromMemory { project_id: String, memory_id: String },
    ProposeAliases { project_id: String },
    ExtractAndIngest { project_id: String, memory_id: String, content: String, file_path: String },
    VerifyFile { project_id: String, file_path: String, valid_memory_ids: Vec<String> },
}

/// The cue prefixes that never train the lexicon.
pub open spec fn untrainable_prefix(c: Seq<char>) -> bool {
    ||| "path:"@.is_prefix_of(c)
    ||| "id:"@.is_prefix_of(c)
    ||| "memory_id:"@.is_prefix_of(c)
    ||| "file:"@.is_prefix_of(c)
    ||| "alias_id:"@.is_prefix_of(c)
    ||| "source:"@.is_prefix_of(c)
}

/// The lexicon entry a cue trains.
pub open spec fn lex_key_of(c: Seq<char>) -> Seq<char> {
    "cue:"@ + c
}

/// What a training pass gives the lexicon: every trainable cue in the
/// list owns an entry under `cue:<c>` that carries every trained token
/// among its cues, and an entry that did not exist before is exactly the
/// fresh one — the cue itself as content, the tokens as its cues.
pub open spec fn lexicon_gained(
    lex0: Map<Seq<char>, crate::structures::MemView>,
    lex1: Map<Seq<char>, crate::structures::MemView>,
    listed: Seq<Seq<char>>,
    tokens: Seq<Seq<char>>,
    now: u64,
) -> bool {
    forall|j: int|
        0 <= j < listed.len() && !untrainable_prefix(text::lower_seq(#[trigger] listed[j])) ==> {
            let key = lex_key_of(listed[j]);
            &&& lex1.contains_key(key)
            &&& (forall|t: int|
                0 <= t < tokens.len() ==> lex1[key].cues.contains(#[trigger] tokens[t]))
            &&& (!lex0.contains_key(key) ==> lex1[key] == crate::engine::fresh_view(
                key,
                listed[j],
                tokens,
                Seq::<(Seq<char>, Seq<char>)>::empty(),
                now,
            ))
        }
}

/// A member that satisfies the predicate survives a filter.
proof fn lemma_filter_mem(s: Seq<Seq<char>>, pred: spec_fn(Seq<char>) -> bool, x: Seq<char>)
    requires
        s.contains(x),
        pred(x),
    ensures
        s.filter(pred).contains(x),
    decreases s.len(),
{
    reveal(Seq::filter);
    if s.len() > 0 {
        if s.last() == x {
            assert(s.filter(pred).last() == x);
        } else {
            let i = choose|i: int| 0 <= i < s.len() && s[i] == x;
            assert(s.drop_last()[i] == x);
            lemma_filter_mem(s.drop_last(), pred, x);
            let j = choose|j: int|
                0 <= j < s.drop_last().filter(pred).len() && s.drop_last().filter(pred)[j] == x;
            assert(s.filter(pred)[j] == x);
        }
    }
}

/// A filter that keeps nothing gives the empty sequence.
proof fn lemma_filter_none(s: Seq<Seq<char>>, pred: spec_fn(Seq<char>) -> bool)
    requires
        forall|i: int| 0 <= i < s.len() ==> !pred(#[trigger] s[i]),
    ensures
        s.filter(pred) =~= Seq::<Seq<char>>::empty(),
    decreases s.len(),
{
    reveal(Seq::filter);
    if s.len() > 0 {
        assert(forall|i: int| 0 <= i < s.drop_last().len() ==> !pred(#[trigger] s.drop_last()[i]));
        lemma_filter_none(s.drop_last(), pred);
        assert(!pred(s.last()));
    }
}

/// Upsert a lexicon entry for every trainable cue of the list, carrying
/// the tokens as the entry's cues.
fn train_entries(lex: &mut crate::engine::CueMapEngine, listed: &Vec<String>, tokens: &Vec<String>, now: u64)
    requires
        old(lex).wf(),
    ensures
        final(lex).wf(),
        lexicon_gained(
            old(lex).mems(),
            final(lex).mems(),
            listed@.map_values(|s: String| s@),
            crate::engine::canon_cues_spec(tokens@.map_values(|s: String| s@)),
            now,
        ),
        forall|k: Seq<char>|
            old(lex).mems().contains_key(k) ==> final(lex).mems().contains_key(k),
        forall|k: Seq<char>|
            #[trigger] final(lex).mems().contains_key(k) ==> old(lex).mems().contains_key(k)
                || exists|j: int|
                0 <= j < listed@.len() && !untrainable_prefix(
                    text::lower_seq((#[trigger] listed@[j])@),
                ) && k == lex_key_of(listed@[j]@),
    {
    let ghost lv = listed@.map_values(|s: String| s@);
    let ghost tv = tokens@.map_values(|s: String| s@);
    let ghost ct = crate::engine::canon_cues_spec(tv);
    let ghost lex0 = old(lex).mems();
    let mut i: usize = 0;
    while i < listed.len()
        invariant
            i <= lv.len(),
            lv == listed@.map_values(|s: String| s@),
            tv == tokens@.map_values(|s: String| s@),
            ct == crate::engine::canon_cues_spec(tv),
            lex.wf(),
            lex0 == old(lex).mems(),
            forall|k: Seq<char>| lex0.contains_key(k) ==> lex.mems().contains_key(k),
            forall|k: Seq<char>|
                #[trigger] lex.mems().contains_key(k) ==> lex0.contains_key(k) || exists|j: int|
                    0 <= j < i && !untrainable_prefix(text::lower_seq((#[trigger] lv[j])))
                        && k == lex_key_of(lv[j]),
            forall|j: int|
                0 <= j < i && !untrainable_prefix(text::lower_seq(#[trigger] lv[j])) ==> {
                    let key = lex_key_of(lv[j]);
                    &&& lex.mems().contains_key(key)
                    &&& (forall|t: int|
                        0 <= t < ct.len() ==> lex.mems()[key].cues.contains(#[trigger] ct[t]))
                    &&& (!lex0.contains_key(key) ==> lex.mems()[key]
                        == crate::engine::fresh_view(
                        key,
                        lv[j],
                        ct,
                        Seq::<(Seq<char>, Seq<char>)>::empty(),
                        now,
                    ))
                },
        decreases lv.len() - i,
    {
        let cue = &listed[i];
        if is_lexicon_trainable(cue.as_str()) {
            let mut lex_id = String::new();
            lex_id.append("cue:");
            lex_id.append(cue.as_str());
            proof {
                reveal_strlit("cue:");
                assert(lex_id@ =~= lex_key_of(lv[i as int]));
            }
            let ghost lexb = lex.mems();
            let ghost key = lex_key_of(lv[i as int]);
            let tcopy = clone_strings(tokens);
            let ccopy = cue.clone();
            let md: Vec<(String, String)> = Vec::new();
            proof {
                assert(md@.map_values(|kv: (String, String)| (kv.0@, kv.1@)) =~= Seq::<
                    (Seq<char>, Seq<char>),
                >::empty());
            }
            lex.upsert_memory_with_id(lex_id, ccopy, tcopy, md, false, now);
            proof {
                // the value now standing under the trained key
                if lexb.contains_key(key) {
                    let vb = lexb[key];
                    let diff = crate::engine::attach_diff(vb, tv);
                    assert(lex.mems() == lexb.insert(key, crate::engine::mem_after_attach(vb, diff)));
                    if forall|t: int| 0 <= t < ct.len() ==> vb.cues.contains(#[trigger] ct[t]) {
                        lemma_filter_none(ct, |c: Seq<char>| !vb.cues.contains(c));
                        assert(diff =~= Seq::<Seq<char>>::empty());
                        assert(crate::engine::mem_after_attach(vb, diff) == vb) by {
                            assert(vb.cues + diff =~= vb.cues);
                        }
                    } else {
                        assert forall|t: int| 0 <= t < ct.len() implies crate::engine::mem_after_attach(
                            vb,
                            diff,
                        ).cues.contains(#[trigger] ct[t]) by {
                            let nc = vb.cues + diff;
                            if vb.cues.contains(ct[t]) {
                                let u = choose|u: int| 0 <= u < vb.cues.len() && vb.cues[u] == ct[t];
                                assert(nc[u] == ct[t]);
                            } else {
                                lemma_filter_mem(ct, |c: Seq<char>| !vb.cues.contains(c), ct[t]);
                                let u = choose|u: int| 0 <= u < diff.len() && diff[u] == ct[t];
                                assert(nc[vb.cues.len() + u] == ct[t]);
                            }
                        }
                    }
                } else {
                    assert(lex.mems() == lexb.insert(
                        key,
                        crate::engine::fresh_view(
                            key,
                            lv[i as int],
                            ct,
                            Seq::<(Seq<char>, Seq<char>)>::empty(),
                            now,
                        ),
                    ));
                    assert forall|t: int| 0 <= t < ct.len() implies lex.mems()[key].cues.contains(
                        #[trigger] ct[t],
                    ) by {
                        assert(lex.mems()[key].cues == ct);
                        assert(ct.contains(ct[t]));
                    }
                }
                // keys other than the trained one keep their values
                assert forall|j: int|
                    0 <= j < i + 1 && !untrainable_prefix(
                        text::lower_seq(#[trigger] lv[j]),
                    ) implies {
                    let kj = lex_key_of(lv[j]);
                    &&& lex.mems().contains_key(kj)
                    &&& (forall|t: int|
                        0 <= t < ct.len() ==> lex.mems()[kj].cues.contains(#[trigger] ct[t]))
                    &&& (!lex0.contains_key(kj) ==> lex.mems()[kj] == crate::engine::fresh_view(
                        kj,
                        lv[j],
                        ct,
                        Seq::<(Seq<char>, Seq<char>)>::empty(),
                        now,
                    ))
                } by {
                    let kj = lex_key_of(lv[j]);
                    if kj == key {
                        // the shared key names the same cue
                        assert(lv[j] =~= kj.skip(4));
                        assert(lv[i as int] =~= key.skip(4));
                        assert(lv[j] == lv[i as int]);
                        if lexb.contains_key(key) {
                            let vb = lexb[key];
                            if !lex0.contains_key(key) {
                                // an earlier duplicate trained this key fresh
                                let jp = choose|jp: int|
                                    0 <= jp < i && !untrainable_prefix(
                                        text::lower_seq(#[trigger] lv[jp]),
                                    ) && key == lex_key_of(lv[jp]);
                                assert(lv[jp] =~= key.skip(4));
                                assert(lv[jp] == lv[j]);
                                assert(vb == crate::engine::fresh_view(
                                    key,
                                    lv[jp],
                                    ct,
                                    Seq::<(Seq<char>, Seq<char>)>::empty(),
                                    now,
                                ));
                                assert(vb.cues == ct);
                                assert(forall|t: int|
                                    0 <= t < ct.len() ==> vb.cues.contains(#[trigger] ct[t]))
                                    by {
                                    assert(forall|t: int|
                                        0 <= t < ct.len() ==> ct.contains(#[trigger] ct[t]));
                                }
                            }
                            if j < i {
                                assert(forall|t: int|
                                    0 <= t < ct.len() ==> vb.cues.contains(#[trigger] ct[t]));
                            }
                            if forall|t: int|
                                0 <= t < ct.len() ==> vb.cues.contains(#[trigger] ct[t]) {
                                lemma_filter_none(ct, |c: Seq<char>| !vb.cues.contains(c));
                                assert(crate::engine::attach_diff(vb, tv) =~= Seq::<
                                    Seq<char>,
                                >::empty());
                                assert(crate::engine::mem_after_attach(
                                    vb,
                                    crate::engine::attach_diff(vb, tv),
                                ) == vb) by {
                                    assert(vb.cues + crate::engine::attach_diff(vb, tv)
                                        =~= vb.cues);
                                }
                                assert(lex.mems()[key] == vb);
                            }
                        }
                    } else {
                        if j < i {
                            assert(lex.mems()[kj] == lexb[kj]);
                        }
                    }
                }
                assert forall|k: Seq<char>|
                    #[trigger] lex.mems().contains_key(k) implies lex0.contains_key(k) || exists|
                    j: int,
                |
                    0 <= j < i + 1 && !untrainable_prefix(text::lower_seq((#[trigger] lv[j])))
                        && k == lex_key_of(lv[j]) by {
                    if k == key {
                        assert(!untrainable_prefix(text::lower_seq(lv[i as int])) && k
                            == lex_key_of(lv[i as int]));
                    } else {
                        assert(lexb.contains_key(k));
                    }
                }
            }
        }
        i = i + 1;
    }
    proof {
        assert(lv.take(lv.len() as int) =~= lv);
    }
}

/// Whether the prune pass removes an id: the file's path entry lists it,
/// it is agent-managed (a `file:` id), and the fresh chunk list does not
/// name it.
pub open spec fn pruned(
    sets0: Map<Seq<char>, Seq<Seq<char>>>,
    path_cue: Seq<char>,
    valid: Seq<Seq<char>>,
    id: Seq<char>,
) -> bool {
    &&& sets0.contains_key(path_cue)
    &&& sets0[path_cue].contains(id)
    &&& "file:"@.is_prefix_of(id)
    &&& !valid.contains(id)
}

/// Whether some orientation of a pair's proposal stands in a registry:
/// its derived id is a stored key, or an entry already wears the id cue.
pub open spec fn pair_registered(
    amems: Map<Seq<char>, crate::structures::MemView>,
    asets: Map<Seq<char>, Seq<Seq<char>>>,
    c1: Seq<char>,
    c2: Seq<char>,
) -> bool {
    ||| amems.contains_key(proposal_id_of(c1, c2))
    ||| asets.contains_key("alias_id:"@ + proposal_id_of(c1, c2))
    ||| amems.contains_key(proposal_id_of(c2, c1))
    ||| asets.contains_key("alias_id:"@ + proposal_id_of(c2, c1))
}

/// Whether an alias-registry entry is a discovered proposal: its content
/// is the alias record of some pair and a weight in range, under the
/// deterministic id derived from the pair.
pub open spec fn proposal_ok(content: Seq<char>, id: Seq<char>) -> bool {
    exists|f: Seq<char>, t: Seq<char>, w: u64|
        #![auto]
        1 <= w <= SCALE && content == record::record_spec(
            f,
            t,
            w as nat,
            "proposed"@,
            "overlap_analysis"@,
        ) && id == ext::uuid5_of(f + "->"@ + t)
}

/// What attaching an accepted cue list does: with none accepted, or an
/// unknown memory, nothing moves; otherwise the memory gains exactly the
/// new cues, the index follows, and (when the stored content tokenizes)
/// the lexicon learns every trainable accepted cue.
pub open spec fn proposed_applied(
    pre: ProjectContext,
    post: ProjectContext,
    memory_id: Seq<char>,
    ns: Seq<Seq<char>>,
    now: u64,
) -> bool {
    let acc = ns.filter(|c: Seq<char>| taxonomy::accepts(pre.taxonomy@, c));
    &&& (acc.len() == 0 ==> post.main == pre.main && post.lexicon == pre.lexicon)
    &&& (acc.len() > 0 && !pre.main.mems().contains_key(memory_id) ==> post.main.mems()
        == pre.main.mems() && post.main.sets() == pre.main.sets() && post.lexicon == pre.lexicon)
    &&& (acc.len() > 0 && pre.main.mems().contains_key(memory_id) ==> {
        let mv = pre.main.mems()[memory_id];
        let diff = crate::engine::attach_diff(mv, acc);
        &&& post.main.mems() == pre.main.mems().insert(
            memory_id,
            crate::engine::mem_after_attach(mv, diff),
        )
        &&& post.main.sets() == crate::engine::index_add_all(pre.main.sets(), diff, memory_id)
        &&& (nl::tokenize_spec(mv.content).len() > 0 ==> lexicon_gained(
            pre.lexicon.mems(),
            post.lexicon.mems(),
            acc,
            crate::engine::canon_cues_spec(nl::tokenize_spec(mv.content)),
            now,
        ))
    })
}

/// Whether a cue may train the lexicon: its lowercase form starts with
/// none of the reserved prefixes.
pub fn is_lexicon_trainable(cue: &str) -> (r: bool)
    ensures
        r == !untrainable_prefix(text::lower_seq(cue@)),
{
    let cs = text::to_chars(cue);
    let lower = text::lower_chars(&cs);
    let p1 = text::to_chars("path:");
    let p2 = text::to_chars("id:");
    let p3 = text::to_chars("memory_id:");
    let p4 = text::to_chars("file:");
    let p5 = text::to_chars("alias_id:");
    let p6 = text::to_chars("source:");
    let hit = text::starts_with_chars(&lower, &p1) || text::starts_with_chars(&lower, &p2)
        || text::starts_with_chars(&lower, &p3) || text::starts_with_chars(&lower, &p4)
        || text::starts_with_chars(&lower, &p5) || text::starts_with_chars(&lower, &p6);
    !hit
}

/// Whether a cue is in canonical `key:value` shape.
pub fn is_canonical_format(cue: &str) -> (r: bool)
    ensures
        r == taxonomy::format_ok(cue@),
{
    let cs = text::to_chars(cue);
    let parts = text::split_chars(&cs, ':');
    proof {
        text::lemma_split_len(cue@, ':');
    }
    if parts.len() < 2 {
        return false;
    }
    if parts[0].len() == 0 {
        return false;
    }
    // the value is everything after the first colon: non-empty unless all
    // remaining fields are empty and there is exactly one of them
    let mut rest: Vec<Vec<char>> = Vec::new();
    let mut i: usize = 1;
    while i < parts.len()
        invariant
            1 <= i <= parts@.len(),
            rest@.map_values(|p: Vec<char>| p@) =~= parts@.map_values(
                |p: Vec<char>| p@,
            ).drop_first().take(i - 1),
        decreases parts@.len() - i,
    {
        rest.push(parts[i].clone());
        proof {
            let pv = parts@.map_values(|p: Vec<char>| p@).drop_first();
            assert(pv.take(i as int) =~= pv.take(i - 1).push(pv[i - 1]));
        }
        i = i + 1;
    }
    proof {
        let pv = parts@.map_values(|p: Vec<char>| p@);
        assert(pv.drop_first().take(pv.len() - 1) =~= pv.drop_first());
        assert(pv =~= text::split_spec(cue@, ':'));
    }
    let value = text::join_chars(&rest, ':');
    value.len() > 0
}

/// The significant tokens of a cue: split on colon, hyphen and
/// underscore, lowercased, keeping the pieces of three or more
/// characters.
pub open spec fn cue_tokens_spec(c: Seq<char>) -> Seq<Seq<char>> {
    text::split_spec(
        text::lower_seq(c).map_values(
            |ch: char|
                if ch == '-' || ch == '_' {
                    ':'
                } else {
                    ch
                },
        ),
        ':',
    ).filter(|t: Seq<char>| t.len() >= 3)
}

/// The significant tokens of a cue.
pub fn cue_tokens(cue: &str) -> (r: Vec<String>)
    ensures
        r@.map_values(|s: String| s@) == cue_tokens_spec(cue@),
{
    let cs = text::to_chars(cue);
    let lower = text::lower_chars(&cs);
    let mut mapped: Vec<char> = Vec::new();
    let mut i: usize = 0;
    let ghost mspec = text::lower_seq(cue@).map_values(
        |ch: char|
            if ch == '-' || ch == '_' {
                ':'
            } else {
                ch
            },
    );
    while i < lower.len()
        invariant
            i <= lower@.len(),
            lower@ == text::lower_seq(cue@),
            mspec == text::lower_seq(cue@).map_values(
                |ch: char|
                    if ch == '-' || ch == '_' {
                        ':'
                    } else {
                        ch
                    },
            ),
            mapped@ =~= mspec.take(i as int),
        decreases lower@.len() - i,
    {
        let c = lower[i];
        if c == '-' || c == '_' {
            mapped.push(':');
        } else {
            mapped.push(c);
        }
        proof {
            assert(mspec.take(i + 1) =~= mspec.take(i as int).push(mspec[i as int]));
        }
        i = i + 1;
    }
    proof {
        assert(mspec.take(mspec.len() as int) =~= mspec);
    }
    let parts = text::split_chars(&mapped, ':');
    let ghost pv = parts@.map_values(|p: Vec<char>| p@);
    let ghost keep = |t: Seq<char>| t.len() >= 3;
    let mut out: Vec<String> = Vec::new();
    let mut j: usize = 0;
    proof {
        reveal(Seq::filter);
        assert(pv =~= text::split_spec(mspec, ':'));
        assert(pv.take(0).filter(keep) =~= Seq::<Seq<char>>::empty());
    }
    while j < parts.len()
        invariant
            j <= parts@.len(),
            pv == parts@.map_values(|p: Vec<char>| p@),
            keep == (|t: Seq<char>| t.len() >= 3),
            out@.map_values(|s: String| s@) == pv.take(j as int).filter(keep),
        decreases parts@.len() - j,
    {
        proof {
            reveal(Seq::filter);
            assert(pv.take(j + 1).drop_last() =~= pv.take(j as int));
            assert(pv.take(j + 1).last() == parts@[j as int]@);
        }
        if parts[j].len() >= 3 {
            out.push(text::to_string(&parts[j]));
        }
        proof {
            assert(out@.map_values(|s: String| s@) =~= pv.take(j + 1).filter(keep));
        }
        j = j + 1;
    }
    proof {
        assert(pv.take(parts@.len() as int) =~= pv);
    }
    out
}

/// Whether two cues are lexically related: one contains the other, or
/// they share a significant token.
pub open spec fn lex_related(a: Seq<char>, b: Seq<char>) -> bool {
    text::is_substring(a, b) || text::is_substring(b, a) || exists|i: int, j: int|
        #![auto]
        0 <= i < cue_tokens_spec(a).len() && 0 <= j < cue_tokens_spec(b).len()
            && cue_tokens_spec(a)[i] == cue_tokens_spec(b)[j]
}

/// The most recent `limit` ids of a stored list: its tail.
pub open spec fn tail_spec(ids: Seq<Seq<char>>, limit: int) -> Seq<Seq<char>> {
    if ids.len() > limit {
        ids.skip(ids.len() - limit)
    } else {
        ids
    }
}

/// How many of the first list's ids the second list also holds.
pub open spec fn common_count(xs: Seq<Seq<char>>, ys: Seq<Seq<char>>) -> nat
    decreases xs.len(),
{
    if xs.len() == 0 {
        0
    } else {
        common_count(xs.drop_last(), ys) + (if ys.contains(xs.last()) {
            1nat
        } else {
            0nat
        })
    }
}

/// Whether an index entry is a discovery candidate: a cue of three or
/// more characters whose list size sits inside the configured band.
pub open spec fn cand_ok(key: Seq<char>, ids: Seq<Seq<char>>) -> bool {
    key.len() >= 3 && 20 <= ids.len() <= 50000
}

/// Whether an ordered candidate pair passes every discovery gate: list
/// sizes within a tenth of the larger, lexical relation, at least three
/// quarters overlap over the recent samples, and at least nine tenths
/// over the full lists.
pub open spec fn pair_passes(ea: (Seq<char>, Seq<Seq<char>>), eb: (Seq<char>, Seq<Seq<char>>)) -> bool {
    let la = ea.1.len();
    let lb = eb.1.len();
    let maxlen = if la > lb {
        la
    } else {
        lb
    };
    let diff = if la > lb {
        la - lb
    } else {
        lb - la
    };
    let sa = tail_spec(ea.1, 512);
    let sb = tail_spec(eb.1, 512);
    let mins = if sa.len() < sb.len() {
        sa.len()
    } else {
        sb.len()
    };
    let minf = if la < lb {
        la
    } else {
        lb
    };
    &&& maxlen > 0
    &&& diff * 10 <= maxlen
    &&& lex_related(ea.0, eb.0)
    &&& mins > 0
    &&& common_count(sa, sb) * 100 >= mins * 75
    &&& minf > 0
    &&& common_count(ea.1, eb.1) * 100 >= minf * 90
}

/// The orientation a passing pair registers under: the side in canonical
/// `key:value` shape, else the lexicographically smaller, becomes the
/// rewrite target (first of the pair), the other the alias.
pub open spec fn choose_spec(a: Seq<char>, b: Seq<char>) -> (Seq<char>, Seq<char>) {
    if taxonomy::format_ok(a) && !taxonomy::format_ok(b) {
        (a, b)
    } else if !taxonomy::format_ok(a) && taxonomy::format_ok(b) {
        (b, a)
    } else if lex_lt_spec(a, b) {
        (a, b)
    } else {
        (b, a)
    }
}

/// The deterministic id a pair's proposal is stored under.
pub open spec fn proposal_id_of(a: Seq<char>, b: Seq<char>) -> Seq<char> {
    ext::uuid5_of(choose_spec(a, b).1 + "->"@ + choose_spec(a, b).0)
}

/// The character view of one candidate entry.
pub open spec fn entry_view(e: (String, Vec<String>)) -> (Seq<char>, Seq<Seq<char>>) {
    (e.0@, e.1@.map_values(|s: String| s@))
}

/// Whether two cues are lexically related: one contains the other, or
/// they share a significant token.
pub fn lexical_gate(a: &str, b: &str) -> (r: bool)
    ensures
        r == lex_related(a@, b@),
{
    let ac = text::to_chars(a);
    let bc = text::to_chars(b);
    if text::contains_chars(&ac, &bc) || text::contains_chars(&bc, &ac) {
        return true;
    }
    let ta = cue_tokens(a);
    let tb = cue_tokens(b);
    let mut i: usize = 0;
    while i < ta.len()
        invariant
            i <= ta@.len(),
            ta@.map_values(|s: String| s@) == cue_tokens_spec(a@),
            tb@.map_values(|s: String| s@) == cue_tokens_spec(b@),
            forall|x: int, y: int|
                #![auto]
                0 <= x < i && 0 <= y < tb@.len() ==> ta@[x]@ != tb@[y]@,
        decreases ta@.len() - i,
    {
        let mut j: usize = 0;
        while j < tb.len()
            invariant
                i < ta@.len(),
                j <= tb@.len(),
                ta@.map_values(|s: String| s@) == cue_tokens_spec(a@),
                tb@.map_values(|s: String| s@) == cue_tokens_spec(b@),
                forall|y: int| #![auto] 0 <= y < j ==> ta@[i as int]@ != tb@[y]@,
            decreases tb@.len() - j,
        {
            if text::str_eq(ta[i].as_str(), tb[j].as_str()) {
                proof {
                    assert(cue_tokens_spec(a@)[i as int] == ta@[i as int]@);
                    assert(cue_tokens_spec(b@)[j as int] == tb@[j as int]@);
                    assert(cue_tokens_spec(a@)[i as int] == cue_tokens_spec(b@)[j as int]);
                }
                return true;
            }
            j = j + 1;
        }
        i = i + 1;
    }
    proof {
        assert forall|x: int, y: int|
            #![auto]
            0 <= x < cue_tokens_spec(a@).len() && 0 <= y < cue_tokens_spec(b@).len() implies
            cue_tokens_spec(a@)[x] != cue_tokens_spec(b@)[y] by {
            assert(ta@[x]@ == cue_tokens_spec(a@)[x]);
            assert(tb@[y]@ == cue_tokens_spec(b@)[y]);
        }
    }
    false
}

/// Whether `a` comes strictly before `b`: at the first differing
/// position the smaller character value wins, and a proper prefix comes
/// first.
pub open spec fn lex_lt_spec(a: Seq<char>, b: Seq<char>) -> bool
    decreases a.len(),
{
    if b.len() == 0 {
        false
    } else if a.len() == 0 {
        true
    } else if a[0] != b[0] {
        (a[0] as u32) < (b[0] as u32)
    } else {
        lex_lt_spec(a.drop_first(), b.drop_first())
    }
}

/// Which of the pair becomes the rewrite target: the one in canonical
/// `key:value` shape; with both or neither canonical, the
/// lexicographically smaller by character values (`b` on a tie).
pub fn choose_canonical(a: &str, b: &str) -> (r: (String, String))
    ensures
        (r.0@ == a@ && r.1@ == b@) || (r.0@ == b@ && r.1@ == a@),
        taxonomy::format_ok(a@) && !taxonomy::format_ok(b@) ==> r.0@ == a@,
        !taxonomy::format_ok(a@) && taxonomy::format_ok(b@) ==> r.0@ == b@,
        taxonomy::format_ok(a@) == taxonomy::format_ok(b@) ==> r.0@ == (if lex_lt_spec(a@, b@) {
            a@
        } else {
            b@
        }) && r.1@ == (if lex_lt_spec(a@, b@) {
            b@
        } else {
            a@
        }),
{
    let a_canon = is_canonical_format(a);
    let b_canon = is_canonical_format(b);
    if a_canon && !b_canon {
        (a.to_owned(), b.to_owned())
    } else if !a_canon && b_canon {
        (b.to_owned(), a.to_owned())
    } else {
        if lex_less(a, b) {
            (a.to_owned(), b.to_owned())
        } else {
            (b.to_owned(), a.to_owned())
        }
    }
}

/// Whether `a` comes before `b` by character values.
fn lex_less(a: &str, b: &str) -> (r: bool)
    ensures
        r == lex_lt_spec(a@, b@),
{
    let ac = text::to_chars(a);
    let bc = text::to_chars(b);
    let mut i: usize = 0;
    proof {
        assert(ac@.skip(0) =~= ac@);
        assert(bc@.skip(0) =~= bc@);
    }
    while i < ac.len() && i < bc.len()
        invariant
            i <= ac@.len(),
            i <= bc@.len(),
            ac@ == a@,
            bc@ == b@,
            lex_lt_spec(a@, b@) == lex_lt_spec(ac@.skip(i as int), bc@.skip(i as int)),
        decreases ac@.len() - i,
    {
        proof {
            assert(ac@.skip(i as int)[0] == ac@[i as int]);
            assert(bc@.skip(i as int)[0] == bc@[i as int]);
        }
        if ac[i] != bc[i] {
            return (ac[i] as u32) < (bc[i] as u32);
        }
        proof {
            assert(ac@.skip(i as int).drop_first() =~= ac@.skip(i + 1));
            assert(bc@.skip(i as int).drop_first() =~= bc@.skip(i + 1));
        }
        i = i + 1;
    }
    proof {
        if i >= ac.len() {
            assert(ac@.skip(i as int).len() == 0);
        } else {
            assert(bc@.skip(i as int).len() == 0);
            assert(lex_lt_spec(ac@.skip(i as int), bc@.skip(i as int)) == false);
        }
    }
    ac.len() < bc.len()
}

impl ProjectContext {
    /// Train the lexicon from a stored memory: tokenize its content and
    /// upsert a lexicon entry `cue:<c>` for each trainable cue, with the
    /// tokens as that entry's cues. Only the lexicon changes.
    pub fn train_lexicon_from_memory(&mut self, memory_id: &str, now: u64)
        requires
            old(self).wf(),
        ensures
            final(self).wf(),
            final(self).main == old(self).main,
            final(self).aliases == old(self).aliases,
            final(self).query_cache == old(self).query_cache,
            final(self).normalization == old(self).normalization,
            final(self).taxonomy == old(self).taxonomy,
            old(self).main.mems().contains_key(memory_id@) && nl::tokenize_spec(
                old(self).main.mems()[memory_id@].content,
            ).len() > 0 ==> lexicon_gained(
                old(self).lexicon.mems(),
                final(self).lexicon.mems(),
                old(self).main.mems()[memory_id@].cues,
                crate::engine::canon_cues_spec(
                    nl::tokenize_spec(old(self).main.mems()[memory_id@].content),
                ),
                now,
            ),
            forall|k: Seq<char>|
                #[trigger] final(self).lexicon.mems().contains_key(k) ==> old(
                    self,
                ).lexicon.mems().contains_key(k) || (old(self).main.mems().contains_key(memory_id@)
                    && exists|j: int|
                    0 <= j < old(self).main.mems()[memory_id@].cues.len() && !untrainable_prefix(
                        text::lower_seq(#[trigger] old(self).main.mems()[memory_id@].cues[j]),
                    ) && k == lex_key_of(old(self).main.mems()[memory_id@].cues[j])),
    {
        let mem = match self.main.get_memory(memory_id) {
            Some(m) => m,
            None => {
                return ;
            },
        };
        let ghost mv = old(self).main.mems()[memory_id@];
        let tokens = nl::tokenize_to_cues(mem.content.as_str());
        if tokens.len() == 0 {
            return ;
        }
        proof {
            assert(mem.cues@.map_values(|x: String| x@) =~= mv.cues);
            assert(tokens@.map_values(|x: String| x@) == nl::tokenize_spec(mv.content));
        }
        train_entries(&mut self.lexicon, &mem.cues, &tokens, now);
        proof {
            assert forall|k: Seq<char>|
                #[trigger] self.lexicon.mems().contains_key(k) && !old(
                    self,
                ).lexicon.mems().contains_key(k) implies exists|j: int|
                0 <= j < mv.cues.len() && !untrainable_prefix(
                    text::lower_seq(#[trigger] mv.cues[j]),
                ) && k == lex_key_of(mv.cues[j]) by {
                let j = choose|j: int|
                    0 <= j < mem.cues@.len() && !untrainable_prefix(
                        text::lower_seq((#[trigger] mem.cues@[j])@),
                    ) && k == lex_key_of(mem.cues@[j]@);
                assert(mv.cues[j] == mem.cues@[j]@);
                assert(0 <= j < mv.cues.len() && !untrainable_prefix(
                    text::lower_seq(#[trigger] mv.cues[j]),
                ) && k == lex_key_of(mv.cues[j]));
            }
        }
    }

    /// Attach externally proposed cues after normalization and taxonomy
    /// validation, then retrain the lexicon with the accepted ones. The
    /// alias registry does not change.
    pub fn apply_proposed_cues(&mut self, memory_id: &str, proposed: Vec<String>, now: u64)
        requires
            old(self).wf(),
        ensures
            final(self).wf(),
            final(self).aliases == old(self).aliases,
            final(self).normalization == old(self).normalization,
            final(self).taxonomy == old(self).taxonomy,
            final(self).query_cache == old(self).query_cache,
            proposed_applied(
                *old(self),
                *final(self),
                memory_id@,
                crate::projects::normalized_of(proposed@, old(self).normalization@),
                now,
            ),
            exists|ns: Seq<Seq<char>>, oks: Seq<Seq<bool>>|
                #![auto]
                normalized_with(ns, oks, proposed@, old(self).normalization@) && proposed_applied(
                    *old(self),
                    *final(self),
                    memory_id@,
                    ns,
                    now,
                ),
    {
        let ghost self0 = *self;
        let ghost cfg = self.normalization@;
        let mut normalized: Vec<String> = Vec::new();
        let ghost mut oks_all: Seq<Seq<bool>> = Seq::empty();
        let mut i: usize = 0;
        while i < proposed.len()
            invariant
                i <= proposed@.len(),
                *self == self0,
                cfg == self.normalization@,
                normalized@.len() == i,
                oks_all.len() == i,
                forall|t: int|
                    0 <= t < i ==> (#[trigger] oks_all[t]).len() == cfg.rules.len()
                        && normalized@[t]@ == crate::normalization::normalize_spec(
                        proposed@[t]@,
                        cfg,
                        oks_all[t],
                    ),
                forall|t: int|
                    0 <= t < i ==> (#[trigger] normalized@[t])@
                        == crate::normalization::normalize_spec(
                        proposed@[t]@,
                        cfg,
                        crate::normalization::oks_of(cfg),
                    ),
            decreases proposed@.len() - i,
        {
            let (n, _) = crate::normalization::normalize_cue(
                proposed[i].as_str(),
                &self.normalization,
            );
            proof {
                let okw = choose|ok: Seq<bool>|
                    #![auto]
                    ok.len() == self.normalization@.rules.len() && n@
                        == crate::normalization::normalize_spec(
                        proposed@[i as int]@,
                        self.normalization@,
                        ok,
                    );
                oks_all = oks_all.push(okw);
            }
            normalized.push(n);
            i = i + 1;
        }
        let ghost nv = normalized@.map_values(|s: String| s@);
        proof {
            assert forall|t: int| #![trigger nv[t]] 0 <= t < nv.len() implies oks_all[t].len()
                == cfg.rules.len() && nv[t] == crate::normalization::normalize_spec(
                proposed@[t]@,
                cfg,
                oks_all[t],
            ) by {
                assert(nv[t] == normalized@[t]@);
            }
            assert(normalized_with(nv, oks_all, proposed@, old(self).normalization@));
            assert(nv =~= crate::projects::normalized_of(proposed@, cfg));
        }
        let report = taxonomy::validate_cues(normalized, &self.taxonomy);
        let ghost acc = nv.filter(|c: Seq<char>| taxonomy::accepts(self0.taxonomy@, c));
        proof {
            assert(report.accepted@.map_values(|s: String| s@) == acc);
        }
        if report.accepted.len() == 0 {
            proof {
                assert(proposed_applied(self0, *self, memory_id@, nv, now));
            }
            return ;
        }
        let accepted = report.accepted;
        let acopy = clone_strings(&accepted);
        let ghost mv = self.main.mems()[memory_id@];
        self.main.attach_cues(memory_id, acopy);
        let mem = match self.main.get_memory(memory_id) {
            Some(m) => m,
            None => {
                proof {
                    assert(proposed_applied(self0, *self, memory_id@, nv, now));
                }
                return ;
            },
        };
        let tokens = nl::tokenize_to_cues(mem.content.as_str());
        if tokens.len() == 0 {
            proof {
                assert(mem@.content == mv.content);
                assert(proposed_applied(self0, *self, memory_id@, nv, now));
            }
            return ;
        }
        proof {
            assert(accepted@.map_values(|x: String| x@) =~= acc);
            assert(mem@.content == mv.content);
            assert(tokens@.map_values(|x: String| x@) == nl::tokenize_spec(mv.content));
        }
        train_entries(&mut self.lexicon, &accepted, &tokens, now);
        proof {
            assert(lexicon_gained(
                old(self).lexicon.mems(),
                self.lexicon.mems(),
                acc,
                crate::engine::canon_cues_spec(nl::tokenize_spec(mv.content)),
                now,
            ));
            assert(proposed_applied(self0, *self, memory_id@, nv, now));
        }
    }

    /// Ingest an extracted chunk: upsert the memory under the given id
    /// with `path:` and `source:agent` appended to its cues, then retrain
    /// the lexicon. The alias registry does not change.
    pub fn ingest_extracted(
        &mut self,
        memory_id: String,
        content: String,
        cues: Vec<String>,
        file_path: &str,
        now: u64,
    )
        requires
            old(self).wf(),
        ensures
            final(self).wf(),
            final(self).aliases == old(self).aliases,
            final(self).normalization == old(self).normalization,
            final(self).taxonomy == old(self).taxonomy,
            final(self).query_cache == old(self).query_cache,
            ({
                let fc = cues@.map_values(|s: String| s@) + seq![
                    "path:"@ + file_path@,
                    "source:agent"@,
                ];
                let cc = crate::engine::canon_cues_spec(fc);
                &&& (!old(self).main.mems().contains_key(memory_id@) ==> final(self).main.mems()
                    == old(self).main.mems().insert(
                    memory_id@,
                    crate::engine::fresh_view(
                        memory_id@,
                        content@,
                        cc,
                        Seq::<(Seq<char>, Seq<char>)>::empty(),
                        now,
                    ),
                ) && final(self).main.sets() == crate::engine::index_add_all(
                    old(self).main.sets(),
                    cc,
                    memory_id@,
                ))
                &&& (old(self).main.mems().contains_key(memory_id@) ==> {
                    let mv = old(self).main.mems()[memory_id@];
                    let diff = crate::engine::attach_diff(mv, fc);
                    &&& final(self).main.mems() == old(self).main.mems().insert(
                        memory_id@,
                        crate::engine::mem_after_attach(mv, diff),
                    )
                    &&& final(self).main.sets() == crate::engine::index_add_all(
                        old(self).main.sets(),
                        diff,
                        memory_id@,
                    )
                })
                &&& (nl::tokenize_spec(final(self).main.mems()[memory_id@].content).len() > 0
                    ==> lexicon_gained(
                    old(self).lexicon.mems(),
                    final(self).lexicon.mems(),
                    fc,
                    crate::engine::canon_cues_spec(
                        nl::tokenize_spec(final(self).main.mems()[memory_id@].content),
                    ),
                    now,
                ))
            }),
    {
        let ghost fc = cues@.map_values(|s: String| s@) + seq![
            "path:"@ + file_path@,
            "source:agent"@,
        ];
        let ghost idv = memory_id@;
        let ghost contentv = content@;
        let mut final_cues = cues;
        let mut path_cue = String::new();
        path_cue.append("path:");
        path_cue.append(file_path);
        proof {
            reveal_strlit("path:");
            assert(path_cue@ =~= "path:"@ + file_path@);
        }
        final_cues.push(path_cue);
        let mut source_cue = String::new();
        source_cue.append("source:agent");
        final_cues.push(source_cue);
        proof {
            assert(final_cues@.map_values(|s: String| s@) =~= fc);
        }
        let ccopy = clone_strings(&final_cues);
        let md: Vec<(String, String)> = Vec::new();
        proof {
            assert(md@.map_values(|kv: (String, String)| (kv.0@, kv.1@)) =~= Seq::<
                (Seq<char>, Seq<char>),
            >::empty());
        }
        let id2 = self.main.upsert_memory_with_id(memory_id, content, ccopy, md, false, now);
        let mem = match self.main.get_memory(id2.as_str()) {
            Some(m) => m,
            None => {
                proof {
                    assert(self.main.mems().contains_key(idv));
                }
                return ;
            },
        };
        let tokens = nl::tokenize_to_cues(mem.content.as_str());
        if tokens.len() == 0 {
            proof {
                assert(mem@.content == self.main.mems()[idv].content);
            }
            return ;
        }
        proof {
            assert(final_cues@.map_values(|x: String| x@) =~= fc);
            assert(mem@.content == self.main.mems()[idv].content);
            assert(tokens@.map_values(|x: String| x@) == nl::tokenize_spec(mem@.content));
        }
        train_entries(&mut self.lexicon, &final_cues, &tokens, now);
    }

    /// Prune a re-ingested file: delete every agent-managed memory
    /// (ids starting `file:`) indexed under `path:<file_path>` that is
    /// not in the fresh chunk list. Only the main engine changes.
    pub fn verify_file(&mut self, file_path: &str, valid_memory_ids: Vec<String>)
        requires
            old(self).wf(),
        ensures
            final(self).wf(),
            final(self).aliases == old(self).aliases,
            final(self).lexicon == old(self).lexicon,
            final(self).query_cache == old(self).query_cache,
            final(self).normalization == old(self).normalization,
            final(self).taxonomy == old(self).taxonomy,
            forall|id: Seq<char>|
                final(self).main.mems().contains_key(id) <==> (old(
                    self,
                ).main.mems().contains_key(id) && !pruned(
                    old(self).main.sets(),
                    "path:"@ + file_path@,
                    valid_memory_ids@.map_values(|s: String| s@),
                    id,
                )),
            forall|id: Seq<char>|
                #[trigger] final(self).main.mems().contains_key(id) ==> final(self).main.mems()[id]
                    == old(self).main.mems()[id],
    {
        let ghost mems0 = self.main.mems();
        let ghost sets0 = self.main.sets();
        let ghost vv = valid_memory_ids@.map_values(|s: String| s@);
        let mut path_cue = String::new();
        path_cue.append("path:");
        path_cue.append(file_path);
        proof {
            reveal_strlit("path:");
            assert(path_cue@ =~= "path:"@ + file_path@);
        }
        let ghost pc = path_cue@;
        let os = match self.main.cue_set(path_cue.as_str()) {
            Some(os) => os,
            None => {
                return ;
            },
        };
        let current = os.get_recent(None);
        let ghost ids = sets0[pc];
        let prefix = text::to_chars("file:");
        let ghost aliases0 = self.aliases;
        let ghost lex0 = self.lexicon;
        let ghost cache0 = self.query_cache;
        let ghost norm0 = self.normalization;
        let ghost tax0 = self.taxonomy;
        let ghost cond = |id: Seq<char>| "file:"@.is_prefix_of(id) && !vv.contains(id);
        let mut i: usize = 0;
        while i < current.len()
            invariant
                i <= current@.len(),
                self.wf(),
                self.aliases == aliases0,
                self.lexicon == lex0,
                self.query_cache == cache0,
                self.normalization == norm0,
                self.taxonomy == tax0,
                prefix@ == "file:"@,
                vv == valid_memory_ids@.map_values(|s: String| s@),
                cond == (|id: Seq<char>| "file:"@.is_prefix_of(id) && !vv.contains(id)),
                current@.len() == ids.len(),
                forall|j: int| 0 <= j < ids.len() ==> (#[trigger] current@[j])@ == ids[ids.len() - 1
                    - j],
                forall|id: Seq<char>|
                    #[trigger] self.main.mems().contains_key(id) <==> (mems0.contains_key(id) && !(
                    exists|j: int| 0 <= j < i && (#[trigger] current@[j])@ == id && cond(id))),
                forall|id: Seq<char>|
                    #[trigger] self.main.mems().contains_key(id) ==> self.main.mems()[id]
                        == mems0[id],
            decreases current@.len() - i,
        {
            let id = &current[i];
            let ghost mems_b = self.main.mems();
            let idc = text::to_chars(id.as_str());
            if text::starts_with_chars(&idc, &prefix) {
                let mut listed = false;
                let mut j: usize = 0;
                while j < valid_memory_ids.len() && !text::str_eq(
                    valid_memory_ids[j].as_str(),
                    id.as_str(),
                )
                    invariant
                        j <= valid_memory_ids@.len(),
                        vv == valid_memory_ids@.map_values(|s: String| s@),
                        forall|u: int| 0 <= u < j ==> (#[trigger] vv[u]) != id@,
                    decreases valid_memory_ids@.len() - j,
                {
                    j = j + 1;
                }
                listed = j < valid_memory_ids.len();
                proof {
                    if listed {
                        assert(vv[j as int] == id@);
                        assert(vv.contains(id@));
                    } else {
                        if vv.contains(id@) {
                            let u = choose|u: int| 0 <= u < vv.len() && vv[u] == id@;
                            assert(vv[u] != id@);
                        }
                    }
                }
                if !listed {
                    self.main.delete_memory(id.as_str());
                }
            }
            proof {
                assert forall|m: Seq<char>|
                    #[trigger] self.main.mems().contains_key(m) <==> (mems0.contains_key(m) && !(
                    exists|j: int|
                        0 <= j < i + 1 && (#[trigger] current@[j])@ == m && cond(m))) by {
                    if m == id@ && cond(id@) {
                        assert(current@[i as int]@ == m && cond(m));
                        assert(exists|j: int|
                            0 <= j < i + 1 && (#[trigger] current@[j])@ == m && cond(m));
                    } else {
                        assert(self.main.mems().contains_key(m) == mems_b.contains_key(m));
                        assert((exists|j: int|
                            0 <= j < i + 1 && (#[trigger] current@[j])@ == m && cond(m)) == (
                        exists|j: int| 0 <= j < i && (#[trigger] current@[j])@ == m && cond(m)))
                            by {
                            if exists|j: int|
                                0 <= j < i + 1 && (#[trigger] current@[j])@ == m && cond(m) {
                                let j = choose|j: int|
                                    0 <= j < i + 1 && (#[trigger] current@[j])@ == m && cond(m);
                                assert(j < i);
                            }
                        }
                    }
                }
            }
            i = i + 1;
        }
        proof {
            assert forall|id: Seq<char>|
                self.main.mems().contains_key(id) <==> (mems0.contains_key(id) && !pruned(
                    sets0,
                    pc,
                    vv,
                    id,
                )) by {
                if pruned(sets0, pc, vv, id) {
                    let u = choose|u: int| 0 <= u < ids.len() && ids[u] == id;
                    assert(current@[ids.len() - 1 - u]@ == id);
                    assert(exists|j: int|
                        0 <= j < current@.len() && (#[trigger] current@[j])@ == id && cond(id));
                } else {
                    if exists|j: int|
                        0 <= j < current@.len() && (#[trigger] current@[j])@ == id && cond(id) {
                        let j = choose|j: int|
                            0 <= j < current@.len() && (#[trigger] current@[j])@ == id && cond(id);
                        assert(ids[ids.len() - 1 - j] == id);
                        assert(ids.contains(id));
                        assert(pruned(sets0, pc, vv, id));
                    }
                }
            }
        }
    }

    /// Discover near-synonym cue pairs and register them as proposed
    /// aliases: cues of similar list size that pass a lexical gate and
    /// whose id sets overlap almost entirely. Only the alias registry
    /// changes.
    pub fn propose_aliases(&mut self, now: u64)
        requires
            old(self).wf(),
        ensures
            final(self).wf(),
            final(self).main == old(self).main,
            final(self).lexicon == old(self).lexicon,
            final(self).query_cache == old(self).query_cache,
            final(self).normalization == old(self).normalization,
            final(self).taxonomy == old(self).taxonomy,
            forall|id: Seq<char>|
                #[trigger] final(self).aliases.mems().contains_key(id) ==> (old(
                    self,
                ).aliases.mems().contains_key(id) && final(self).aliases.mems()[id].content == old(
                    self,
                ).aliases.mems()[id].content) || proposal_ok(
                    final(self).aliases.mems()[id].content,
                    id,
                ),
            old(self).main.sets().dom().finite() && old(self).main.sets().dom().len() <= 1500
                ==> forall|c1: Seq<char>, c2: Seq<char>|
                old(self).main.sets().contains_key(c1) && old(self).main.sets().contains_key(c2)
                    && c1 != c2 && cand_ok(c1, old(self).main.sets()[c1]) && cand_ok(
                    c2,
                    old(self).main.sets()[c2],
                ) && #[trigger] pair_passes(
                    (c1, old(self).main.sets()[c1]),
                    (c2, old(self).main.sets()[c2]),
                ) && pair_passes(
                    (c2, old(self).main.sets()[c2]),
                    (c1, old(self).main.sets()[c1]),
                ) ==> pair_registered(
                    final(self).aliases.mems(),
                    final(self).aliases.sets(),
                    c1,
                    c2,
                ),
    {
        let ghost sets0 = self.main.sets();
        let entries = self.main.export_cue_index();
        proof {
            if sets0.dom().finite() && sets0.dom().len() <= 1500 {
                let keys = entries@.map_values(|e: (String, Vec<String>)| e.0@);
                assert(keys.no_duplicates());
                keys.unique_seq_to_set();
                assert(keys.to_set().subset_of(sets0.dom())) by {
                    assert forall|k: Seq<char>| keys.to_set().contains(k) implies
                        sets0.dom().contains(k) by {
                        let t = choose|t: int| 0 <= t < keys.len() && keys[t] == k;
                        assert(entries@[t].0@ == k);
                    }
                }
                vstd::set_lib::lemma_len_subset(keys.to_set(), sets0.dom());
                assert(entries@.len() <= 1500);
            }
        }
        // the mid-frequency candidates: name length at least three, list
        // size inside the configured band
        let mut cands: Vec<(String, Vec<String>)> = Vec::new();
        let mut i: usize = 0;
        while i < entries.len()
            invariant
                i <= entries@.len(),
                sets0 == self.main.sets(),
                cands@.len() <= i,
                forall|t: int|
                    0 <= t < entries@.len() ==> sets0.contains_key((#[trigger] entries@[t]).0@)
                        && entries@[t].1@.map_values(|x: String| x@) == sets0[entries@[t].0@],
                forall|j: int|
                    0 <= j < cands@.len() ==> sets0.contains_key((#[trigger] cands@[j]).0@)
                        && cands@[j].1@.map_values(|x: String| x@) == sets0[cands@[j].0@]
                        && cand_ok(cands@[j].0@, sets0[cands@[j].0@]),
                entries@.len() <= 1500 ==> forall|t: int|
                    0 <= t < i && cand_ok(
                        (#[trigger] entries@[t]).0@,
                        sets0[entries@[t].0@],
                    ) ==> exists|j: int|
                        0 <= j < cands@.len() && (#[trigger] cands@[j]).0@ == entries@[t].0@,
            decreases entries@.len() - i,
        {
            let kc = text::to_chars(entries[i].0.as_str());
            let keylen = kc.len();
            let setlen = entries[i].1.len();
            let ghost cands_b = cands@;
            if keylen >= 3 && 20 <= setlen && setlen <= 50000 {
                if cands.len() < 1500 {
                    cands.push((entries[i].0.clone(), clone_strings(&entries[i].1)));
                }
            }
            proof {
                assert(setlen == sets0[entries@[i as int].0@].len());
                if entries@.len() <= 1500 {
                    assert forall|t: int|
                        0 <= t < i + 1 && cand_ok(
                            (#[trigger] entries@[t]).0@,
                            sets0[entries@[t].0@],
                        ) implies exists|j: int|
                        0 <= j < cands@.len() && (#[trigger] cands@[j]).0@ == entries@[t].0@ by {
                        if t < i {
                            let j = choose|j: int|
                                0 <= j < cands_b.len() && (#[trigger] cands_b[j]).0@ == entries@[
                                    t
                                ].0@;
                            assert(cands@[j].0@ == entries@[t].0@);
                        } else {
                            assert(cands@[cands@.len() - 1].0@ == entries@[t].0@);
                        }
                    }
                }
            }
            i = i + 1;
        }
        let ghost main0 = self.main;
        let ghost lex0 = self.lexicon;
        let ghost cache0 = self.query_cache;
        let ghost norm0 = self.normalization;
        let ghost tax0 = self.taxonomy;
        let ghost a0m = self.aliases.mems();
        let mut a: usize = 0;
        while a < cands.len()
            invariant
                a <= cands@.len(),
                self.wf(),
                self.main == main0,
                self.lexicon == lex0,
                self.query_cache == cache0,
                self.normalization == norm0,
                self.taxonomy == tax0,
                forall|id: Seq<char>|
                    #[trigger] self.aliases.mems().contains_key(id) ==> (a0m.contains_key(id)
                        && self.aliases.mems()[id].content == a0m[id].content) || proposal_ok(
                        self.aliases.mems()[id].content,
                        id,
                    ),
                forall|x: int, y: int|
                    0 <= x < y < cands@.len() && x < a && #[trigger] pair_passes(
                        entry_view(cands@[x]),
                        entry_view(cands@[y]),
                    ) ==> self.aliases.mems().contains_key(
                        proposal_id_of(cands@[x].0@, cands@[y].0@),
                    ) || self.aliases.sets().contains_key(
                        "alias_id:"@ + proposal_id_of(cands@[x].0@, cands@[y].0@),
                    ),
            decreases cands@.len() - a,
        {
            let mut b: usize = a + 1;
            while b < cands.len()
                invariant
                    a < b <= cands@.len() || b == a + 1,
                    a < cands@.len(),
                    self.wf(),
                    self.main == main0,
                    self.lexicon == lex0,
                    self.query_cache == cache0,
                    self.normalization == norm0,
                    self.taxonomy == tax0,
                    forall|id: Seq<char>|
                        #[trigger] self.aliases.mems().contains_key(id) ==> (a0m.contains_key(id)
                            && self.aliases.mems()[id].content == a0m[id].content) || proposal_ok(
                            self.aliases.mems()[id].content,
                            id,
                        ),
                    forall|x: int, y: int|
                        0 <= x < y < cands@.len() && (x < a || (x == a && y < b))
                            && #[trigger] pair_passes(
                            entry_view(cands@[x]),
                            entry_view(cands@[y]),
                        ) ==> self.aliases.mems().contains_key(
                            proposal_id_of(cands@[x].0@, cands@[y].0@),
                        ) || self.aliases.sets().contains_key(
                            "alias_id:"@ + proposal_id_of(cands@[x].0@, cands@[y].0@),
                        ),
                decreases cands@.len() - b,
            {
                let ghost ab = self.aliases.mems();
                self.consider_pair(a, b, &cands, now);
                proof {
                    assert forall|id: Seq<char>|
                        #[trigger] self.aliases.mems().contains_key(id) implies (a0m.contains_key(
                        id,
                    ) && self.aliases.mems()[id].content == a0m[id].content) || proposal_ok(
                        self.aliases.mems()[id].content,
                        id,
                    ) by {
                        if ab.contains_key(id) && self.aliases.mems()[id].content == ab[
                            id
                        ].content {
                            assert(ab.contains_key(id));
                        }
                    }
                }
                b = b + 1;
            }
            a = a + 1;
        }
        proof {
            if sets0.dom().finite() && sets0.dom().len() <= 1500 {
                assert forall|c1: Seq<char>, c2: Seq<char>|
                    sets0.contains_key(c1) && sets0.contains_key(c2) && c1 != c2 && cand_ok(
                        c1,
                        sets0[c1],
                    ) && cand_ok(c2, sets0[c2]) && #[trigger] pair_passes(
                        (c1, sets0[c1]),
                        (c2, sets0[c2]),
                    ) && pair_passes(
                        (c2, sets0[c2]),
                        (c1, sets0[c1]),
                    ) implies pair_registered(
                    self.aliases.mems(),
                    self.aliases.sets(),
                    c1,
                    c2,
                ) by {
                    let t1 = choose|t: int| 0 <= t < entries@.len() && entries@[t].0@ == c1;
                    let t2 = choose|t: int| 0 <= t < entries@.len() && entries@[t].0@ == c2;
                    assert(cand_ok(entries@[t1].0@, sets0[entries@[t1].0@]));
                    assert(cand_ok(entries@[t2].0@, sets0[entries@[t2].0@]));
                    let j1 = choose|j: int|
                        0 <= j < cands@.len() && (#[trigger] cands@[j]).0@ == c1;
                    let j2 = choose|j: int|
                        0 <= j < cands@.len() && (#[trigger] cands@[j]).0@ == c2;
                    assert(entry_view(cands@[j1]) == (c1, sets0[c1]));
                    assert(entry_view(cands@[j2]) == (c2, sets0[c2]));
                    assert(j1 != j2);
                    if j1 < j2 {
                        assert(pair_passes(entry_view(cands@[j1]), entry_view(cands@[j2])));
                    } else {
                        assert(pair_passes(entry_view(cands@[j2]), entry_view(cands@[j1])));
                    }
                }
            }
        }
    }

    /// Judge one candidate pair and register a proposed alias when every
    /// gate passes.
    #[verifier::rlimit(100)]
    fn consider_pair(&mut self, a: usize, b: usize, cands: &Vec<(String, Vec<String>)>, now: u64)
        requires
            old(self).wf(),
            a < cands@.len(),
            b < cands@.len(),
        ensures
            final(self).wf(),
            final(self).main == old(self).main,
            final(self).lexicon == old(self).lexicon,
            final(self).query_cache == old(self).query_cache,
            final(self).normalization == old(self).normalization,
            final(self).taxonomy == old(self).taxonomy,
            forall|id: Seq<char>|
                #[trigger] final(self).aliases.mems().contains_key(id) ==> (old(
                    self,
                ).aliases.mems().contains_key(id) && final(self).aliases.mems()[id].content == old(
                    self,
                ).aliases.mems()[id].content) || proposal_ok(
                    final(self).aliases.mems()[id].content,
                    id,
                ),
            forall|id: Seq<char>|
                old(self).aliases.mems().contains_key(id)
                    ==> final(self).aliases.mems().contains_key(id),
            forall|c: Seq<char>|
                old(self).aliases.sets().contains_key(c)
                    ==> final(self).aliases.sets().contains_key(c),
            pair_passes(entry_view(cands@[a as int]), entry_view(cands@[b as int]))
                ==> final(self).aliases.mems().contains_key(
                proposal_id_of(cands@[a as int].0@, cands@[b as int].0@),
            ) || final(self).aliases.sets().contains_key(
                "alias_id:"@ + proposal_id_of(cands@[a as int].0@, cands@[b as int].0@),
            ),
    {
        let ghost ea = entry_view(cands@[a as int]);
        let ghost eb = entry_view(cands@[b as int]);
        let la = cands[a].1.len();
        let lb = cands[b].1.len();
        let maxlen = if la > lb {
            la
        } else {
            lb
        };
        let diff = if la > lb {
            la - lb
        } else {
            lb - la
        };
        proof {
            assert(la == ea.1.len() && lb == eb.1.len());
        }
        if maxlen == 0 {
            proof {
                assert(!pair_passes(ea, eb));
            }
            return ;
        }
        // size-similarity gate: the lists differ by at most a tenth
        if (diff as u128) * 10 > maxlen as u128 {
            proof {
                assert(!pair_passes(ea, eb));
            }
            return ;
        }
        if !lexical_gate(cands[a].0.as_str(), cands[b].0.as_str()) {
            proof {
                assert(!lex_related(ea.0, eb.0));
                assert(!pair_passes(ea, eb));
            }
            return ;
        }
        // overlap over the most recent ids, then over the full lists
        let sample_a = tail_sample(&cands[a].1, 512);
        let sample_b = tail_sample(&cands[b].1, 512);
        let inter_sample = count_common(&sample_a, &sample_b);
        let min_sample = if sample_a.len() < sample_b.len() {
            sample_a.len()
        } else {
            sample_b.len()
        };
        proof {
            assert(sample_a@.map_values(|x: String| x@) == tail_spec(ea.1, 512));
            assert(sample_b@.map_values(|x: String| x@) == tail_spec(eb.1, 512));
            assert(inter_sample == common_count(tail_spec(ea.1, 512), tail_spec(eb.1, 512)));
        }
        if min_sample == 0 {
            proof {
                assert(!pair_passes(ea, eb));
            }
            return ;
        }
        // sample score at least three quarters
        if (inter_sample as u128) * 100 < (min_sample as u128) * 75 {
            proof {
                assert(!pair_passes(ea, eb));
            }
            return ;
        }
        let inter_full = count_common(&cands[a].1, &cands[b].1);
        let min_full = if la < lb {
            la
        } else {
            lb
        };
        if min_full == 0 {
            proof {
                assert(!pair_passes(ea, eb));
            }
            return ;
        }
        // exact score at least nine tenths
        if (inter_full as u128) * 100 < (min_full as u128) * 90 {
            proof {
                assert(!pair_passes(ea, eb));
            }
            return ;
        }
        let score128: u128 = ((inter_full as u128) * (SCALE as u128)) / (min_full as u128);
        let score: u64 = if score128 > SCALE as u128 {
            SCALE
        } else if score128 == 0 {
            1
        } else {
            score128 as u64
        };
        let (canon, alias) = choose_canonical(cands[a].0.as_str(), cands[b].0.as_str());
        proof {
            if ea.0 == eb.0 {
                assert(choose_spec(ea.0, eb.0) == (ea.0, eb.0));
                assert((canon@, alias@) == choose_spec(ea.0, eb.0));
            } else if taxonomy::format_ok(ea.0) != taxonomy::format_ok(eb.0) {
                assert((canon@, alias@) == choose_spec(ea.0, eb.0));
            } else {
                assert((canon@, alias@) == choose_spec(ea.0, eb.0));
            }
        }
        self.register_proposal(alias.as_str(), canon.as_str(), score, now);
    }

    /// Register one proposal under its derived id, unless an entry
    /// already wears that id cue.
    fn register_proposal(&mut self, alias: &str, canon: &str, score: u64, now: u64)
        requires
            old(self).wf(),
            1 <= score <= SCALE,
        ensures
            final(self).wf(),
            final(self).main == old(self).main,
            final(self).lexicon == old(self).lexicon,
            final(self).query_cache == old(self).query_cache,
            final(self).normalization == old(self).normalization,
            final(self).taxonomy == old(self).taxonomy,
            forall|id: Seq<char>|
                #[trigger] final(self).aliases.mems().contains_key(id) ==> (old(
                    self,
                ).aliases.mems().contains_key(id) && final(self).aliases.mems()[id].content == old(
                    self,
                ).aliases.mems()[id].content) || proposal_ok(
                    final(self).aliases.mems()[id].content,
                    id,
                ),
            forall|id: Seq<char>|
                old(self).aliases.mems().contains_key(id)
                    ==> final(self).aliases.mems().contains_key(id),
            forall|c: Seq<char>|
                old(self).aliases.sets().contains_key(c)
                    ==> final(self).aliases.sets().contains_key(c),
            final(self).aliases.mems().contains_key(ext::uuid5_of(alias@ + "->"@ + canon@))
                || final(self).aliases.sets().contains_key(
                "alias_id:"@ + ext::uuid5_of(alias@ + "->"@ + canon@),
            ),
    {
        let mut name = String::new();
        name.append(alias);
        name.append("->");
        name.append(canon);
        let alias_id = ext::uuid_v5_oid(name.as_str());
        let mut id_cue = String::new();
        id_cue.append("alias_id:");
        id_cue.append(alias_id.as_str());
        proof {
            assert(name@ =~= alias@ + "->"@ + canon@);
            assert(id_cue@ =~= "alias_id:"@ + ext::uuid5_of(alias@ + "->"@ + canon@));
        }
        if self.aliases.has_cue(id_cue.as_str()) {
            return ;
        }
        let content = record::format_record(alias, canon, score, "proposed", "overlap_analysis");
        let mut cues: Vec<String> = Vec::new();
        let mut c1 = String::new();
        c1.append("type:alias");
        cues.push(c1);
        let mut c2 = String::new();
        c2.append("from:");
        c2.append(alias);
        cues.push(c2);
        let mut c3 = String::new();
        c3.append("to:");
        c3.append(canon);
        cues.push(c3);
        let mut c4 = String::new();
        c4.append("status:proposed");
        cues.push(c4);
        let mut c5 = String::new();
        c5.append("reason:overlap_analysis");
        cues.push(c5);
        cues.push(id_cue);
        let ghost idv = alias_id@;
        let ghost cv = content@;
        let ghost a0 = self.aliases.mems();
        self.aliases.upsert_memory_with_id(alias_id, content, cues, Vec::new(), false, now);
        proof {
            assert(idv == ext::uuid5_of(alias@ + "->"@ + canon@));
            assert(cv == record::record_spec(
                alias@,
                canon@,
                score as nat,
                "proposed"@,
                "overlap_analysis"@,
            ));
            assert forall|id: Seq<char>|
                #[trigger] self.aliases.mems().contains_key(id) implies (a0.contains_key(id)
                && self.aliases.mems()[id].content == a0[id].content) || proposal_ok(
                self.aliases.mems()[id].content,
                id,
            ) by {
                if id == idv {
                    if !a0.contains_key(id) {
                        assert(self.aliases.mems()[id].content == cv);
                        assert(proposal_ok(cv, id));
                    }
                } else {
                    assert(self.aliases.mems()[id] == a0[id]);
                }
            }
            assert(self.aliases.mems().contains_key(idv));
            let cvs = cues@.map_values(|x: String| x@);
            let cc = crate::engine::canon_cues_spec(cvs);
            crate::engine::lemma_dedup_props(
                cvs.map_values(|c: Seq<char>| crate::engine::cue_canon_spec(c)).filter(
                    |c: Seq<char>| c.len() > 0,
                ),
            );
            if old(self).aliases.mems().contains_key(idv) {
                let mv = old(self).aliases.mems()[idv];
                let diff = crate::engine::attach_diff(mv, cvs);
                crate::engine::lemma_filter_nodup(cc, |c: Seq<char>| !mv.cues.contains(c));
                crate::engine::lemma_index_add_all_props(old(self).aliases.sets(), diff, idv);
            } else {
                crate::engine::lemma_index_add_all_props(old(self).aliases.sets(), cc, idv);
            }
        }
    }
}

/// The most recent `limit` ids of a stored list (its tail).
fn tail_sample(ids: &Vec<String>, limit: usize) -> (r: Vec<String>)
    ensures
        r@.len() <= limit,
        r@.map_values(|s: String| s@) == tail_spec(
            ids@.map_values(|s: String| s@),
            limit as int,
        ),
{
    let ghost iv = ids@.map_values(|s: String| s@);
    let n = ids.len();
    let start = if n > limit {
        n - limit
    } else {
        0
    };
    let mut out: Vec<String> = Vec::new();
    let mut i: usize = start;
    while i < n
        invariant
            start <= i <= n,
            n == ids@.len(),
            iv == ids@.map_values(|s: String| s@),
            out@.len() == i - start,
            n - start <= limit,
            forall|j: int| 0 <= j < out@.len() ==> (#[trigger] out@[j])@ == iv[start + j],
        decreases n - i,
    {
        out.push(ids[i].clone());
        i = i + 1;
    }
    proof {
        assert(out@.map_values(|s: String| s@) =~= tail_spec(iv, limit as int));
    }
    out
}

/// How many of the first list's ids the second list also holds.
fn count_common(xs: &Vec<String>, ys: &Vec<String>) -> (r: usize)
    ensures
        r <= xs@.len(),
        r == common_count(xs@.map_values(|s: String| s@), ys@.map_values(|s: String| s@)),
{
    let ghost xv = xs@.map_values(|s: String| s@);
    let ghost yv = ys@.map_values(|s: String| s@);
    let mut count: usize = 0;
    let mut i: usize = 0;
    proof {
        assert(xv.take(0) =~= Seq::<Seq<char>>::empty());
    }
    while i < xs.len()
        invariant
            i <= xs@.len(),
            count <= i,
            xv == xs@.map_values(|s: String| s@),
            yv == ys@.map_values(|s: String| s@),
            count == common_count(xv.take(i as int), yv),
        decreases xs@.len() - i,
    {
        let mut j: usize = 0;
        while j < ys.len() && !text::str_eq(ys[j].as_str(), xs[i].as_str())
            invariant
                i < xs@.len(),
                j <= ys@.len(),
                xv == xs@.map_values(|s: String| s@),
                yv == ys@.map_values(|s: String| s@),
                forall|u: int| 0 <= u < j ==> (#[trigger] yv[u]) != xv[i as int],
            decreases ys@.len() - j,
        {
            j = j + 1;
        }
        proof {
            if j < ys@.len() {
                assert(yv[j as int] == xv[i as int]);
                assert(yv.contains(xv[i as int]));
            } else {
                if yv.contains(xv[i as int]) {
                    let u = choose|u: int| 0 <= u < yv.len() && yv[u] == xv[i as int];
                    assert(yv[u] != xv[i as int]);
                }
            }
            assert(xv.take(i + 1).drop_last() =~= xv.take(i as int));
            assert(xv.take(i + 1).last() == xv[i as int]);
        }
        if j < ys.len() {
            count = count + 1;
        }
        i = i + 1;
    }
    proof {
        assert(xv.take(xv.len() as int) =~= xv);
    }
    count
}

/// A copy of a string list.
fn clone_strings(v: &Vec<String>) -> (r: Vec<String>)
    ensures
        r@.map_values(|s: String| s@) == v@.map_values(|s: String| s@),
{
    let mut out: Vec<String> = Vec::new();
    let mut i: usize = 0;
    while i < v.len()
        invariant
            i <= v@.len(),
            out@.len() == i,
            forall|j: int| 0 <= j < i ==> (#[trigger] out@[j])@ == v@[j]@,
        decreases v@.len() - i,
    {
        out.push(v[i].clone());
        i = i + 1;
    }
    proof {
        assert(out@.map_values(|s: String| s@) =~= v@.map_values(|s: String| s@));
    }
    out
}

} // verus!
