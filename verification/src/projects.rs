//! A project: the isolated unit of state. One main engine, one alias
//! registry, one lexicon (all three the same engine type), a query cache,
//! and the normalization and taxonomy configuration.

use crate::engine::CueMapEngine;
use crate::fixed::SCALE;
use crate::normalization::NormalizationConfig;
use crate::nl;
use crate::normalization;
use crate::record;
use crate::text;
use crate::taxonomy::Taxonomy;
use crate::taxonomy::ValidationReport;
use crate::taxonomy;
use vstd::prelude::*;

verus! {

/// The default downweight an alias gets when its record does not carry a
/// usable one.
pub const DEFAULT_DOWNWEIGHT: u64 = 850000;

/// The list `ns` is the input cues normalized one by one, each under the
/// compile oracle `oks[i]` for the configured patterns.
pub open spec fn normalized_with(
    ns: Seq<Seq<char>>,
    oks: Seq<Seq<bool>>,
    cues: Seq<String>,
    config: normalization::NormConfigV,
) -> bool {
    &&& ns.len() == cues.len()
    &&& oks.len() == cues.len()
    &&& forall|i: int|
        #![trigger ns[i]]
        0 <= i < ns.len() ==> oks[i].len() == config.rules.len() && ns[i]
            == normalization::normalize_spec(cues[i]@, config, oks[i])
}

/// The input cues normalized one by one under the configured rules'
/// compile oracle: the exact list the store works from.
pub open spec fn normalized_of(cues: Seq<String>, config: normalization::NormConfigV) -> Seq<
    Seq<char>,
> {
    cues.map_values(
        |c: String| normalization::normalize_spec(c@, config, normalization::oks_of(config)),
    )
}

/// What a fresh text resolution returns: the accepted normalizations of
/// the contents of a lexicon recall over the text's tokens (capped at the
/// ranker's query width), judged against the lexicon as it stood.
pub open spec fn resolved_from_lexicon(
    r: Seq<String>,
    pre: ProjectContext,
    text: Seq<char>,
) -> bool {
    exists|hits: Seq<crate::engine::RecallResult>|
        #![trigger crate::engine::recall_ok(
            hits,
            crate::engine::active_cues(
                crate::engine::unit_weights(query_tokens(text)),
                pre.lexicon.sets(),
            ),
            pre.lexicon.sets(),
            pre.lexicon.mems(),
            8,
            None,
            false,
        )]
        crate::engine::recall_ok(
            hits,
            crate::engine::active_cues(
                crate::engine::unit_weights(query_tokens(text)),
                pre.lexicon.sets(),
            ),
            pre.lexicon.sets(),
            pre.lexicon.mems(),
            8,
            None,
            false,
        ) && r.map_values(|s: String| s@) == normalized_of(
            hits.map_values(|h: crate::engine::RecallResult| h.content),
            pre.normalization@,
        ).filter(|c: Seq<char>| taxonomy::accepts(pre.taxonomy@, c))
}

/// The token query a text resolves through: its tokenized cues, capped at
/// the ranker's query width.
pub open spec fn query_tokens(text: Seq<char>) -> Seq<Seq<char>> {
    if nl::tokenize_spec(text).len() > 1000000 {
        nl::tokenize_spec(text).take(1000000)
    } else {
        nl::tokenize_spec(text)
    }
}

/// One recall outcome witnesses a resolution.
pub proof fn lemma_resolved_intro(
    r: Seq<String>,
    pre: ProjectContext,
    text: Seq<char>,
    hits: Seq<crate::engine::RecallResult>,
)
    requires
        crate::engine::recall_ok(
            hits,
            crate::engine::active_cues(
                crate::engine::unit_weights(query_tokens(text)),
                pre.lexicon.sets(),
            ),
            pre.lexicon.sets(),
            pre.lexicon.mems(),
            8,
            None,
            false,
        ),
        r.map_values(|s: String| s@) == normalized_of(
            hits.map_values(|h: crate::engine::RecallResult| h.content),
            pre.normalization@,
        ).filter(|c: Seq<char>| taxonomy::accepts(pre.taxonomy@, c)),
    ensures
        resolved_from_lexicon(r, pre, text),
{
}

/// The cached resolution for a normalized query text, if any (the first
/// entry under that key).
pub open spec fn cache_get(cache: Seq<(String, Vec<String>)>, key: Seq<char>) -> Option<
    Vec<String>,
>
    decreases cache.len(),
{
    if cache.len() == 0 {
        None
    } else if cache[0].0@ == key {
        Some(cache[0].1)
    } else {
        cache_get(cache.drop_first(), key)
    }
}

/// The downweight an alias contributes: the record's, when it is
/// readable and within one unit; otherwise the default.
pub open spec fn weight_or_default(w: Option<u64>) -> u64 {
    match w {
        Some(v) => if 1 <= v <= SCALE {
            v
        } else {
            DEFAULT_DOWNWEIGHT
        },
        None => DEFAULT_DOWNWEIGHT,
    }
}

/// Every expanded pair either repeats an input cue at full weight, or
/// comes from a stored alias that is registered for some input cue
/// (`from:<cue>`) and active, as its record's rewrite target with the
/// record's downweight (or the default when the record carries none).
pub open spec fn expansion_ok(
    out: Seq<(String, u64)>,
    cues: Seq<String>,
    amems: Map<Seq<char>, crate::structures::MemView>,
) -> bool {
    forall|j: int|
        0 <= j < out.len() ==> ((exists|t: int|
            0 <= t < cues.len() && (#[trigger] cues[t])@ == (#[trigger] out[j]).0@ && out[j].1
                == SCALE) || alias_backed(#[trigger] out[j], cues, amems))
}

/// Every input cue is expanded: it appears in the output at full weight.
pub open spec fn expansion_covers(out: Seq<(String, u64)>, cues: Seq<String>) -> bool {
    forall|t: int|
        0 <= t < cues.len() ==> exists|j: int|
            0 <= j < out.len() && (#[trigger] out[j]).0@ == (#[trigger] cues[t])@ && out[j].1
                == SCALE
}

pub struct ProjectContext {
    pub main: CueMapEngine,
    pub aliases: CueMapEngine,
    pub lexicon: CueMapEngine,
    pub query_cache: Vec<(String, Vec<String>)>,
    pub normalization: NormalizationConfig,
    pub taxonomy: Taxonomy,
}

impl ProjectContext {
    /// All three engines keep index consistency, and everything the query
    /// cache holds passed the taxonomy.
    pub open spec fn wf(&self) -> bool {
        &&& self.main.wf()
        &&& self.aliases.wf()
        &&& self.lexicon.wf()
        &&& forall|i: int, j: int|
            0 <= i < self.query_cache@.len() && 0 <= j < self.query_cache@[i].1@.len()
                ==> taxonomy::accepts(
                self.taxonomy@,
                (#[trigger] self.query_cache@[i].1@[j])@,
            )
    }

    /// A fresh project with the given configuration and empty engines.
    pub fn new(normalization: NormalizationConfig, taxonomy: Taxonomy) -> (r: Self)
        ensures
            r.wf(),
            r.main.mems() == crate::ext::empty_mem_map(),
            r.main.sets() == crate::ext::empty_set_map(),
            r.aliases.mems() == crate::ext::empty_mem_map(),
            r.aliases.sets() == crate::ext::empty_set_map(),
            r.lexicon.mems() == crate::ext::empty_mem_map(),
            r.lexicon.sets() == crate::ext::empty_set_map(),
            r.query_cache@.len() == 0,
            r.normalization == normalization,
            r.taxonomy == taxonomy,
    {
        ProjectContext {
            main: CueMapEngine::new(),
            aliases: CueMapEngine::new(),
            lexicon: CueMapEngine::new(),
            query_cache: Vec::new(),
            normalization,
            taxonomy,
        }
    }

    /// Normalize and validate the cues, store the content under the
    /// accepted ones, and report what was rejected. Hands back the new
    /// memory's id and the validation report.
    pub fn store_memory(
        &mut self,
        content: String,
        cues: Vec<String>,
        metadata: Vec<(String, String)>,
        now: u64,
    ) -> (r: (String, ValidationReport))
        requires
            old(self).wf(),
        ensures
            final(self).wf(),
            final(self).aliases == old(self).aliases,
            final(self).lexicon == old(self).lexicon,
            final(self).query_cache == old(self).query_cache,
            final(self).normalization == old(self).normalization,
            final(self).taxonomy == old(self).taxonomy,
            forall|j: int|
                0 <= j < r.1.accepted@.len() ==> taxonomy::accepts(
                    old(self).taxonomy@,
                    (#[trigger] r.1.accepted@[j])@,
                ),
            r.1.accepted@.map_values(|s: String| s@) == normalized_of(
                cues@,
                old(self).normalization@,
            ).filter(|c: Seq<char>| taxonomy::accepts(old(self).taxonomy@, c)),
            r.1.rejected@.map_values(|rc: taxonomy::RejectedCue| rc.cue@) == normalized_of(
                cues@,
                old(self).normalization@,
            ).filter(|c: Seq<char>| !taxonomy::accepts(old(self).taxonomy@, c)),
            exists|ns: Seq<Seq<char>>, oks: Seq<Seq<bool>>|
                #![auto]
                normalized_with(ns, oks, cues@, old(self).normalization@)
                    && r.1.accepted@.map_values(|s: String| s@) == ns.filter(
                    |c: Seq<char>| taxonomy::accepts(old(self).taxonomy@, c),
                ) && r.1.rejected@.map_values(|rc: taxonomy::RejectedCue| rc.cue@) == ns.filter(
                    |c: Seq<char>| !taxonomy::accepts(old(self).taxonomy@, c),
                ),
            !old(self).main.mems().contains_key(r.0@) ==> final(self).main.mems() == old(
                self,
            ).main.mems().insert(
                r.0@,
                crate::engine::fresh_view(
                    r.0@,
                    content@,
                    crate::engine::canon_cues_spec(
                        r.1.accepted@.map_values(|s: String| s@),
                    ),
                    metadata@.map_values(|kv: (String, String)| (kv.0@, kv.1@)),
                    now,
                ),
            ) && final(self).main.sets() == crate::engine::index_add_all(
                old(self).main.sets(),
                crate::engine::canon_cues_spec(r.1.accepted@.map_values(|s: String| s@)),
                r.0@,
            ),
    {
        let ghost cfg = self.normalization@;
        let ghost self0 = *self;
        let mut normalized: Vec<String> = Vec::new();
        let ghost mut oks_all: Seq<Seq<bool>> = Seq::empty();
        let mut i: usize = 0;
        while i < cues.len()
            invariant
                i <= cues@.len(),
                *self == self0,
                cfg == self.normalization@,
                normalized@.len() == i,
                oks_all.len() == i,
                forall|t: int|
                    0 <= t < i ==> (#[trigger] oks_all[t]).len() == cfg.rules.len()
                        && normalized@[t]@ == normalization::normalize_spec(
                        cues@[t]@,
                        cfg,
                        oks_all[t],
                    ),
                forall|t: int|
                    0 <= t < i ==> (#[trigger] normalized@[t])@ == normalization::normalize_spec(
                        cues@[t]@,
                        cfg,
                        normalization::oks_of(cfg),
                    ),
            decreases cues@.len() - i,
        {
            let (n, _) = normalization::normalize_cue(cues[i].as_str(), &self.normalization);
            proof {
                let okw = choose|ok: Seq<bool>|
                    #![auto]
                    ok.len() == self.normalization@.rules.len() && n@
                        == normalization::normalize_spec(
                        cues@[i as int]@,
                        self.normalization@,
                        ok,
                    );
                oks_all = oks_all.push(okw);
            }
            normalized.push(n);
            i = i + 1;
        }
        let ghost nv = normalized@.map_values(|s: String| s@);
        proof {
            assert(cfg == old(self).normalization@);
            assert forall|t: int| #![trigger nv[t]] 0 <= t < nv.len() implies oks_all[t].len()
                == cfg.rules.len() && nv[t] == normalization::normalize_spec(
                cues@[t]@,
                cfg,
                oks_all[t],
            ) by {
                assert(nv[t] == normalized@[t]@);
            }
            assert(normalized_with(nv, oks_all, cues@, old(self).normalization@));
            assert(nv =~= normalized_of(cues@, cfg));
        }
        let report = taxonomy::validate_cues(normalized, &self.taxonomy);
        let accepted_copy = clone_list(&report.accepted);
        proof {
            let av = report.accepted@.map_values(|s: String| s@);
            assert(av == nv.filter(|c: Seq<char>| taxonomy::accepts(old(self).taxonomy@, c)));
            assert forall|j: int| 0 <= j < report.accepted@.len() implies taxonomy::accepts(
                old(self).taxonomy@,
                (#[trigger] report.accepted@[j])@,
            ) by {
                assert(report.accepted@[j]@ == av[j]);
                Seq::lemma_filter_pred(
                    nv,
                    |c: Seq<char>| taxonomy::accepts(old(self).taxonomy@, c),
                    j,
                );
            }
            assert(accepted_copy@.map_values(|s: String| s@) == report.accepted@.map_values(
                |s: String| s@,
            ));
        }
        let id = self.main.add_memory(content, accepted_copy, metadata, now);
        (id, report)
    }

    /// Resolve free text to canonical cues: on a cache hit for the
    /// normalized text, the memoized cues; otherwise tokenize, ask the
    /// lexicon (limit 8, reinforcing the hits), normalize and validate
    /// each hit's canonical cue, memoize and return the accepted ones.
    /// Every returned cue passes the taxonomy.
    pub fn resolve_cues_from_text(&mut self, text_in: &str, now: u64) -> (r: Vec<String>)
        requires
            old(self).wf(),
        ensures
            final(self).wf(),
            final(self).main == old(self).main,
            final(self).aliases == old(self).aliases,
            final(self).normalization == old(self).normalization,
            final(self).taxonomy == old(self).taxonomy,
            forall|j: int|
                0 <= j < r@.len() ==> taxonomy::accepts(
                    old(self).taxonomy@,
                    (#[trigger] r@[j])@,
                ),
            match cache_get(
                old(self).query_cache@,
                nl::normalize_text_spec(text_in@),
            ) {
                Some(v) => r@.map_values(|s: String| s@) == v@.map_values(|s: String| s@)
                    && final(self).query_cache == old(self).query_cache && final(self).lexicon
                    == old(self).lexicon,
                None => {
                    &&& (nl::tokenize_spec(text_in@).len() == 0 ==> r@.len() == 0
                        && final(self).query_cache == old(self).query_cache
                        && final(self).lexicon == old(self).lexicon)
                    &&& (nl::tokenize_spec(text_in@).len() > 0 ==> match cache_get(
                        final(self).query_cache@,
                        nl::normalize_text_spec(text_in@),
                    ) {
                        Some(v2) => v2@.map_values(|s: String| s@) == r@.map_values(
                            |s: String| s@,
                        ),
                        None => false,
                    })
                },
            },
            cache_get(old(self).query_cache@, nl::normalize_text_spec(text_in@)) is None
                && nl::tokenize_spec(text_in@).len() > 0 ==> resolved_from_lexicon(
                r@,
                *old(self),
                text_in@,
            ),
    {
        let key = nl::normalize_text(text_in);
        let ghost cache0 = self.query_cache@;
        // a memoized resolution answers at once
        let mut ci: usize = 0;
        proof {
            assert(cache0.skip(0) =~= cache0);
        }
        while ci < self.query_cache.len()
            invariant
                ci <= self.query_cache@.len(),
                *self == *old(self),
                self.wf(),
                key@ == nl::normalize_text_spec(text_in@),
                cache0 == self.query_cache@,
                cache_get(cache0, key@) == cache_get(cache0.skip(ci as int), key@),
                forall|j: int| 0 <= j < ci ==> (#[trigger] cache0[j]).0@ != key@,
            decreases self.query_cache@.len() - ci,
        {
            proof {
                assert(cache0.skip(ci as int).len() > 0);
                assert(cache0.skip(ci as int)[0] == cache0[ci as int]);
                assert(cache0.skip(ci as int).drop_first() =~= cache0.skip(ci + 1));
            }
            if text::str_eq(self.query_cache[ci].0.as_str(), key.as_str()) {
                let cached = clone_list(&self.query_cache[ci].1);
                proof {
                    assert(cache0.skip(ci as int)[0].0@ == key@);
                    assert(cache_get(cache0.skip(ci as int), key@) == Some(
                        cache0.skip(ci as int)[0].1,
                    ));
                    assert(cache_get(cache0, key@) == Some(cache0[ci as int].1));
                    let src = self.query_cache@[ci as int].1;
                    assert(cached@.map_values(|s: String| s@) == src@.map_values(
                        |s: String| s@,
                    ));
                    assert forall|j: int| 0 <= j < cached@.len() implies taxonomy::accepts(
                        old(self).taxonomy@,
                        (#[trigger] cached@[j])@,
                    ) by {
                        assert(cached@[j]@ == cached@.map_values(|s: String| s@)[j]);
                        assert(src@.map_values(|s: String| s@)[j] == src@[j]@);
                        assert(src@[j]@ == (self.query_cache@[ci as int].1@[j])@);
                        assert(taxonomy::accepts(self.taxonomy@, src@[j]@));
                    }
                    assert(cached@.map_values(|s: String| s@) =~= cache0[ci as int].1@.map_values(
                        |s: String| s@,
                    ));
                }
                return cached;
            }
            ci = ci + 1;
        }
        proof {
            assert(cache0.skip(self.query_cache@.len() as int).len() == 0);
            assert(cache_get(cache0, key@) is None);
            assert(forall|j: int| 0 <= j < cache0.len() ==> (#[trigger] cache0[j]).0@ != key@);
        }
        let mut tokens = nl::tokenize_to_cues(text_in);
        if tokens.len() == 0 {
            return Vec::new();
        }
        // the ranker asks for a bounded query width; past that the extra
        // tokens cannot raise any score the lexicon reports
        if tokens.len() > 1000000 {
            tokens.truncate(1000000);
        }
        let ghost self1 = *self;
        let ghost tqv = tokens@.map_values(|s: String| s@);
        let hits = self.lexicon.recall(tokens, 8, true, now);
        let ghost self2 = *self;
        let ghost cfg = self.normalization@;
        let mut normalized: Vec<String> = Vec::new();
        let mut i: usize = 0;
        while i < hits.len()
            invariant
                i <= hits@.len(),
                *self == self2,
                cfg == self.normalization@,
                normalized@.len() == i,
                forall|j: int|
                    0 <= j < i ==> (#[trigger] normalized@[j])@ == normalization::normalize_spec(
                        hits@[j].content@,
                        cfg,
                        normalization::oks_of(cfg),
                    ),
            decreases hits@.len() - i,
        {
            let (n, _) = normalization::normalize_cue(hits[i].content.as_str(), &self.normalization);
            normalized.push(n);
            i = i + 1;
        }
        let ghost nv = normalized@.map_values(|s: String| s@);
        proof {
            assert(nv =~= normalized_of(
                hits@.map_values(|h: crate::engine::RecallResult| h.content),
                cfg,
            ));
        }
        let report = taxonomy::validate_cues(normalized, &self.taxonomy);
        let accepted = report.accepted;
        proof {
            let av = accepted@.map_values(|s: String| s@);
            assert(av == nv.filter(|c: Seq<char>| taxonomy::accepts(self.taxonomy@, c)));
            assert forall|j: int| 0 <= j < accepted@.len() implies taxonomy::accepts(
                old(self).taxonomy@,
                (#[trigger] accepted@[j])@,
            ) by {
                assert(accepted@[j]@ == av[j]);
                Seq::lemma_filter_pred(
                    nv,
                    |c: Seq<char>| taxonomy::accepts(self.taxonomy@, c),
                    j,
                );
            }
        }
        let memo = clone_list(&accepted);
        let ghost cache_before = self.query_cache@;
        self.query_cache.push((key, memo));
        proof {
            assert(self.query_cache@.drop_last() =~= cache_before);
            assert forall|a: int, b: int|
                0 <= a < self.query_cache@.len() && 0 <= b < self.query_cache@[a].1@.len() implies
                taxonomy::accepts(
                    self.taxonomy@,
                    (#[trigger] self.query_cache@[a].1@[b])@,
                ) by {
                if a < cache_before.len() {
                    assert(self.query_cache@[a] == cache_before[a]);
                } else {
                    let mv = self.query_cache@[a].1@.map_values(|s: String| s@);
                    assert(self.query_cache@[a].1@[b]@ == mv[b]);
                    assert(mv == accepted@.map_values(|s: String| s@));
                    assert(self.query_cache@[a].1@[b]@ == accepted@[b]@);
                }
            }
            assert(cache_before == cache0);
            assert(self.query_cache@[cache_before.len() as int].0@ == key@);
            assert forall|j: int| 0 <= j < cache_before.len() implies (
            #[trigger] self.query_cache@[j]).0@ != key@ by {
                assert(self.query_cache@[j] == cache0[j]);
            }
            lemma_cache_get_found(self.query_cache@, key@, cache_before.len() as int);
            assert(self.query_cache@[cache_before.len() as int].1@.map_values(|s: String| s@)
                == accepted@.map_values(|s: String| s@));
            let tq = query_tokens(text_in@);
            assert(tqv =~= tq);
            assert(self1.lexicon == old(self).lexicon);
            assert(crate::engine::recall_ok(
                hits@,
                crate::engine::active_cues(
                    crate::engine::unit_weights(tq),
                    old(self).lexicon.sets(),
                ),
                old(self).lexicon.sets(),
                old(self).lexicon.mems(),
                8,
                None,
                false,
            ));
            assert(accepted@.map_values(|s: String| s@) == normalized_of(
                hits@.map_values(|h: crate::engine::RecallResult| h.content),
                old(self).normalization@,
            ).filter(|c: Seq<char>| taxonomy::accepts(old(self).taxonomy@, c)));
            lemma_resolved_intro(accepted@, *old(self), text_in@, hits@);
            assert(resolved_from_lexicon(accepted@, *old(self), text_in@)) by {
                assert(crate::engine::recall_ok(
                    hits@,
                    crate::engine::active_cues(
                        crate::engine::unit_weights(tq),
                        old(self).lexicon.sets(),
                    ),
                    old(self).lexicon.sets(),
                    old(self).lexicon.mems(),
                    8,
                    None,
                    false,
                ) && accepted@.map_values(|s: String| s@) == normalized_of(
                    hits@.map_values(|h: crate::engine::RecallResult| h.content),
                    old(self).normalization@,
                ).filter(|c: Seq<char>| taxonomy::accepts(old(self).taxonomy@, c)));
            }
        }
        accepted
    }

    /// Expand normalized query cues: every input cue at full weight and,
    /// for each active alias the registry recalls for it, the record's
    /// rewrite target with its downweight (the default when the record
    /// carries none).
    pub fn expand_query_cues(&mut self, cues: Vec<String>, now: u64) -> (r: Vec<(String, u64)>)
        requires
            old(self).wf(),
            cues@.len() <= 1000000,
        ensures
            final(self).wf(),
            final(self).main == old(self).main,
            final(self).lexicon == old(self).lexicon,
            final(self).query_cache == old(self).query_cache,
            final(self).normalization == old(self).normalization,
            final(self).taxonomy == old(self).taxonomy,
            forall|j: int| 0 <= j < r@.len() ==> 1 <= (#[trigger] r@[j]).1 <= SCALE,
            expansion_ok(r@, cues@, old(self).aliases.mems()),
            expansion_covers(r@, cues@),
    {
        let ghost a0m = self.aliases.mems();
        let ghost a0s = self.aliases.sets();
        let ghost main0 = self.main;
        let ghost lex0 = self.lexicon;
        let ghost cache0 = self.query_cache;
        let ghost norm0 = self.normalization;
        let ghost tax0 = self.taxonomy;
        let mut out: Vec<(String, u64)> = Vec::new();
        let mut i: usize = 0;
        proof {
            assert(cues@.take(0).len() == 0);
        }
        while i < cues.len()
            invariant
                i <= cues@.len(),
                cues@.len() <= 1000000,
                self.wf(),
                self.main == main0,
                self.lexicon == lex0,
                self.query_cache == cache0,
                self.normalization == norm0,
                self.taxonomy == tax0,
                crate::engine::state_evolved(a0m, a0s, self.aliases.mems(), self.aliases.sets()),
                expansion_ok(out@, cues@, a0m),
                expansion_covers(out@, cues@.take(i as int)),
                forall|j: int| 0 <= j < out@.len() ==> 1 <= (#[trigger] out@[j]).1 <= SCALE,
            decreases cues@.len() - i,
        {
            let cue = cues[i].clone();
            let ghost out_before = out@;
            out.push((cue, SCALE));
            proof {
                assert((out@[out@.len() - 1]).0@ == cues@[i as int]@);
                assert forall|j: int| 0 <= j < out@.len() implies ((exists|t: int|
                    0 <= t < cues@.len() && (#[trigger] cues@[t])@ == (#[trigger] out@[j]).0@
                        && out@[j].1 == SCALE) || alias_backed(out@[j], cues@, a0m)) by {
                    if j < out_before.len() {
                        assert(out@[j] == out_before[j]);
                        assert(expansion_ok(out_before, cues@, a0m));
                    } else {
                        assert(cues@[i as int]@ == out@[j].0@ && out@[j].1 == SCALE);
                    }
                }
                assert(expansion_ok(out@, cues@, a0m));
                assert forall|t: int| 0 <= t < cues@.take(i + 1).len() implies exists|j: int|
                    0 <= j < out@.len() && (#[trigger] out@[j]).0@ == (#[trigger] cues@.take(
                        i + 1,
                    )[t])@ && out@[j].1 == SCALE by {
                    assert(cues@.take(i + 1)[t] == cues@[t]);
                    if t < i {
                        assert(cues@.take(i as int)[t] == cues@[t]);
                        assert(expansion_covers(out_before, cues@.take(i as int)));
                        let j0 = choose|j: int|
                            0 <= j < out_before.len() && (#[trigger] out_before[j]).0@
                                == cues@.take(i as int)[t]@ && out_before[j].1 == SCALE;
                        assert(out@[j0].0@ == cues@[t]@ && out@[j0].1 == SCALE);
                    } else {
                        assert(out@[out@.len() - 1].0@ == cues@[t]@ && out@[out@.len() - 1].1
                            == SCALE);
                    }
                }
                assert(expansion_covers(out@, cues@.take(i + 1)));
            }
            // ask the registry for active aliases of this cue
            let mut from_cue = String::new();
            from_cue.append("from:");
            from_cue.append(cues[i].as_str());
            let mut q: Vec<String> = Vec::new();
            let mut t1 = String::new();
            t1.append("type:alias");
            q.push(t1);
            q.push(from_cue.clone());
            let mut t3 = String::new();
            t3.append("status:active");
            q.push(t3);
            let ghost alias_pre = self.aliases;
            let hits = self.aliases.recall(q, 8, true, now);
            proof {
                assert forall|j: int| 0 <= j < hits@.len() implies a0m.contains_key(
                    (#[trigger] hits@[j]).memory_id@,
                ) by {
                    assert(crate::engine::valid_result(
                        hits@[j],
                        crate::engine::active_cues(
                            crate::engine::unit_weights(q@.map_values(|t: String| t@)),
                            alias_pre.sets(),
                        ),
                        alias_pre.sets(),
                        alias_pre.mems(),
                        false,
                    ));
                    assert(alias_pre.mems().contains_key(hits@[j].memory_id@));
                    assert(alias_pre.mems().dom() == a0m.dom());
                }
                assert(crate::engine::state_evolved(a0m, a0s, self.aliases.mems(), self.aliases.sets())) by {
                    assert(alias_pre.mems().dom() == self.aliases.mems().dom());
                }
            }
            let mut h: usize = 0;
            while h < hits.len()
                invariant
                    h <= hits@.len(),
                    i < cues@.len(),
                    self.wf(),
                    self.main == main0,
                    self.lexicon == lex0,
                    self.query_cache == cache0,
                    self.normalization == norm0,
                    self.taxonomy == tax0,
                    from_cue@ == "from:"@ + cues@[i as int]@,
                    forall|j: int|
                        0 <= j < hits@.len() ==> a0m.contains_key(
                            (#[trigger] hits@[j]).memory_id@,
                        ),
                    crate::engine::state_evolved(a0m, a0s, self.aliases.mems(), self.aliases.sets()),
                    expansion_ok(out@, cues@, a0m),
                    expansion_covers(out@, cues@.take(i + 1)),
                    forall|j: int| 0 <= j < out@.len() ==> 1 <= (#[trigger] out@[j]).1 <= SCALE,
                decreases hits@.len() - h,
            {
                let ghost m = hits@[h as int].memory_id@;
                let mem = match self.aliases.get_memory(hits[h].memory_id.as_str()) {
                    Some(mem) => mem,
                    None => {
                        proof {
                            assert(self.aliases.mems().dom() == a0m.dom());
                            assert(a0m.contains_key(m));
                            assert(false);
                        }
                        crate::structures::Memory::new(String::new(), String::new(), Vec::new(), 0)
                    },
                };
                proof {
                    assert(self.aliases.mems().contains_key(m));
                    assert(mem@ == self.aliases.mems()[m]);
                    assert(mem@.cues == a0m[m].cues);
                    assert(mem@.content == a0m[m].content);
                }
                let from_ok = cue_list_has(&mem.cues, from_cue.as_str());
                let mut status = String::new();
                status.append("status:active");
                let active_ok = cue_list_has(&mem.cues, status.as_str());
                if from_ok && active_ok {
                    match record::parse_record(mem.content.as_str()) {
                        Some((to, w_opt)) => {
                            let w = match w_opt {
                                Some(w) => if 1 <= w && w <= SCALE {
                                    w
                                } else {
                                    DEFAULT_DOWNWEIGHT
                                },
                                None => DEFAULT_DOWNWEIGHT,
                            };
                            let ghost out_b2 = out@;
                            proof {
                                assert(record::parse_target_spec(a0m[m].content) == Some(to@));
                                assert(w == weight_or_default(record::parse_weight_spec(
                                    a0m[m].content,
                                )));
                                assert(a0m[m].cues.contains("from:"@ + cues@[i as int]@));
                                assert(a0m[m].cues.contains("status:active"@));
                            }
                            out.push((to, w));
                            proof {
                                assert(alias_backed(out@[out@.len() - 1], cues@, a0m)) by {
                                    assert(a0m.contains_key(m) && a0m[m].cues.contains(
                                        "from:"@ + cues@[i as int]@,
                                    ) && a0m[m].cues.contains("status:active"@)
                                        && record::parse_target_spec(a0m[m].content) == Some(
                                        out@[out@.len() - 1].0@,
                                    ) && out@[out@.len() - 1].1 == weight_or_default(
                                        record::parse_weight_spec(a0m[m].content),
                                    ));
                                }
                                assert forall|j: int| 0 <= j < out@.len() implies ((exists|
                                    t: int,
                                |
                                    0 <= t < cues@.len() && (#[trigger] cues@[t])@ == (
                                    #[trigger] out@[j]).0@ && out@[j].1 == SCALE)
                                    || alias_backed(out@[j], cues@, a0m)) by {
                                    if j < out_b2.len() {
                                        assert(out@[j] == out_b2[j]);
                                        assert(expansion_ok(out_b2, cues@, a0m));
                                    }
                                }
                                assert(expansion_ok(out@, cues@, a0m));
                                assert forall|t: int|
                                    0 <= t < cues@.take(i + 1).len() implies exists|j: int|
                                    0 <= j < out@.len() && (#[trigger] out@[j]).0@ == (
                                    #[trigger] cues@.take(i + 1)[t])@ && out@[j].1 == SCALE by {
                                    assert(expansion_covers(out_b2, cues@.take(i + 1)));
                                    let j0 = choose|j: int|
                                        0 <= j < out_b2.len() && (#[trigger] out_b2[j]).0@
                                            == cues@.take(i + 1)[t]@ && out_b2[j].1 == SCALE;
                                    assert(out@[j0].0@ == cues@.take(i + 1)[t]@ && out@[j0].1
                                        == SCALE);
                                }
                                assert(expansion_covers(out@, cues@.take(i + 1)));
                            }
                        },
                        None => {},
                    }
                }
                h = h + 1;
            }
            i = i + 1;
        }
        proof {
            assert(a0m == old(self).aliases.mems());
            assert(cues@.take(cues@.len() as int) =~= cues@);
            assert(expansion_covers(out@, cues@));
        }
        out
    }
}

/// One output pair read back from a stored, active alias of some input.
pub open spec fn alias_backed(
    pair: (String, u64),
    cues: Seq<String>,
    amems: Map<Seq<char>, crate::structures::MemView>,
) -> bool {
    exists|t: int, id: Seq<char>|
        #![auto]
        0 <= t < cues.len() && amems.contains_key(id) && amems[id].cues.contains(
            "from:"@ + cues[t]@,
        ) && amems[id].cues.contains("status:active"@) && record::parse_target_spec(
            amems[id].content,
        ) == Some(pair.0@) && pair.1 == weight_or_default(
            record::parse_weight_spec(amems[id].content),
        )
}

/// When no entry before `at` carries the key and the entry at `at` does,
/// the lookup lands on it.
pub proof fn lemma_cache_get_found(cache: Seq<(String, Vec<String>)>, key: Seq<char>, at: int)
    requires
        0 <= at < cache.len(),
        cache[at].0@ == key,
        forall|j: int| 0 <= j < at ==> (#[trigger] cache[j]).0@ != key,
    ensures
        cache_get(cache, key) == Some(cache[at].1),
    decreases cache.len(),
{
    if at > 0 {
        assert(cache[0].0@ != key);
        assert(cache.drop_first()[at - 1] == cache[at]);
        assert(forall|j: int|
            0 <= j < at - 1 ==> (#[trigger] cache.drop_first()[j]).0@ != key);
        lemma_cache_get_found(cache.drop_first(), key, at - 1);
    }
}

/// Whether the cue list holds the given cue.
fn cue_list_has(cues: &Vec<String>, cue: &str) -> (r: bool)
    ensures
        r == cues@.map_values(|s: String| s@).contains(cue@),
{
    let ghost cv = cues@.map_values(|s: String| s@);
    let mut i: usize = 0;
    while i < cues.len()
        invariant
            i <= cues@.len(),
            cv == cues@.map_values(|s: String| s@),
            forall|j: int| 0 <= j < i ==> cv[j] != cue@,
        decreases cues@.len() - i,
    {
        if crate::text::str_eq(cues[i].as_str(), cue) {
            proof {
                assert(cv[i as int] == cue@);
            }
            return true;
        }
        i = i + 1;
    }
    proof {
        assert(!cv.contains(cue@));
    }
    false
}

/// A copy of a string list.
fn clone_list(v: &Vec<String>) -> (r: Vec<String>)
    ensures
        r@.map_values(|s: String| s@) == v@.map_values(|s: String| s@),
{
    let mut out: Vec<String> = Vec::new();
    let mut i: usize = 0;
    while i < v.len()
        invariant
            i <= v@.len(),
            out@.len() == i,
            forall|j: int| 0 <= j < i ==> (#[trigger] out@[j])@ == v@[j]@,
        decreases v@.len() - i,
    {
        out.push(v[i].clone());
        i = i + 1;
    }
    proof {
        assert(out@.map_values(|s: String| s@) =~= v@.map_values(|s: String| s@));
    }
    out
}

} // verus!
