//! Cue normalization: trim, ASCII lowercase, configured regex rewrite
//! rules in order, then the duplicated-prefix correction (`k:v:v` to
//! `k:v`). The regex engine is trusted through the wrappers in `ext`; the
//! contract names each rewrite's outcome through those wrappers' spec
//! functions, and which patterns compile through `pattern_compiles`, so
//! the normalized form is a function of the input and the configuration.

use crate::ext;
use crate::text;
use vstd::prelude::*;

verus! {

/// One rewrite rule: a regex pattern and its replacement, under a name
/// that the trace reports.
pub struct RewriteRule {
    pub name: String,
    pub pattern: String,
    pub replace: String,
}

/// The mathematical content of a rewrite rule.
pub ghost struct RuleV {
    pub name: Seq<char>,
    pub pattern: Seq<char>,
    pub replace: Seq<char>,
}

impl View for RewriteRule {
    type V = RuleV;

    open spec fn view(&self) -> RuleV {
        RuleV { name: self.name@, pattern: self.pattern@, replace: self.replace@ }
    }
}

/// How raw cues are normalized: optional trim and lowercase, then the
/// rewrite rules in order.
pub struct NormalizationConfig {
    pub lowercase: bool,
    pub trim: bool,
    pub rewrite_rules: Vec<RewriteRule>,
}

impl Default for NormalizationConfig {
    /// The default configuration trims and lowercases, with no rules.
    fn default() -> (r: Self)
        ensures
            r.lowercase,
            r.trim,
            r.rewrite_rules@.len() == 0,
    {
        NormalizationConfig { lowercase: true, trim: true, rewrite_rules: Vec::new() }
    }
}

/// What one normalization produced: the raw input, the result, and the
/// names of the rules that changed it, in order.
pub struct NormalizeTrace {
    pub raw: String,
    pub normalized: String,
    pub applied_rules: Vec<String>,
}

/// The trim-and-lowercase stage.
pub open spec fn base_stage(raw: Seq<char>, do_trim: bool, do_lower: bool) -> Seq<char> {
    let t = if do_trim {
        text::trim_spec(raw)
    } else {
        raw
    };
    if do_lower {
        text::lower_seq(t)
    } else {
        t
    }
}

/// What one rule does to the current text, when its pattern compiled: the
/// regex crate's replacement if the pattern matches and the replacement
/// changes something, else no change.
pub open spec fn rule_outcome(cur: Seq<char>, rule: RuleV) -> Seq<char> {
    if ext::regex_match_of(rule.pattern, cur) && ext::regex_replace_of(
        rule.pattern,
        cur,
        rule.replace,
    ) != cur {
        ext::regex_replace_of(rule.pattern, cur, rule.replace)
    } else {
        cur
    }
}

/// Whether the rule changed the text (its name is then recorded).
pub open spec fn rule_applied(cur: Seq<char>, rule: RuleV) -> bool {
    ext::regex_match_of(rule.pattern, cur) && ext::regex_replace_of(
        rule.pattern,
        cur,
        rule.replace,
    ) != cur
}

/// The text after the rules in `rules` ran in order; `ok[i]` says whether
/// rule `i`'s pattern compiled (a rule that does not compile is skipped).
pub open spec fn run_rules(cur: Seq<char>, rules: Seq<RuleV>, ok: Seq<bool>) -> Seq<char>
    decreases rules.len(),
{
    if rules.len() == 0 {
        cur
    } else {
        let next = if ok[0] {
            rule_outcome(cur, rules[0])
        } else {
            cur
        };
        run_rules(next, rules.drop_first(), ok.drop_first())
    }
}

/// The names of the rules that changed the text, in order.
pub open spec fn applied_names(cur: Seq<char>, rules: Seq<RuleV>, ok: Seq<bool>) -> Seq<
    Seq<char>,
>
    decreases rules.len(),
{
    if rules.len() == 0 {
        Seq::empty()
    } else {
        let here = if ok[0] && rule_applied(cur, rules[0]) {
            seq![rules[0].name]
        } else {
            Seq::empty()
        };
        let next = if ok[0] {
            rule_outcome(cur, rules[0])
        } else {
            cur
        };
        here + applied_names(next, rules.drop_first(), ok.drop_first())
    }
}

/// Whether the duplicated-prefix correction fires: the second and third
/// colon-separated parts are equal and non-empty.
pub open spec fn dedupe_applies(s: Seq<char>) -> bool {
    let parts = text::split_spec(s, ':');
    parts.len() >= 3 && parts[1] == parts[2] && parts[1].len() > 0
}

/// The text after the duplicated-prefix correction: the second part is
/// dropped when the correction fires.
pub open spec fn dedupe_spec(s: Seq<char>) -> Seq<char> {
    if dedupe_applies(s) {
        text::join_spec(text::split_spec(s, ':').remove(1), ':')
    } else {
        s
    }
}

/// The whole normalization of `raw` under a configuration, given the
/// compile oracle `ok`: base stage, rules, duplicated-prefix correction.
pub open spec fn normalize_spec(raw: Seq<char>, config: NormConfigV, ok: Seq<bool>) -> Seq<
    char,
> {
    dedupe_spec(run_rules(base_stage(raw, config.trim, config.lowercase), config.rules, ok))
}

/// The rule names a full normalization records: the rules that changed the
/// text, then `dedupe_prefix` when the correction fired.
pub open spec fn normalize_names(raw: Seq<char>, config: NormConfigV, ok: Seq<bool>) -> Seq<
    Seq<char>,
> {
    let after = run_rules(base_stage(raw, config.trim, config.lowercase), config.rules, ok);
    applied_names(base_stage(raw, config.trim, config.lowercase), config.rules, ok) + (
    if dedupe_applies(after) {
        seq!["dedupe_prefix"@]
    } else {
        Seq::empty()
    })
}

/// The mathematical content of a configuration.
pub ghost struct NormConfigV {
    pub lowercase: bool,
    pub trim: bool,
    pub rules: Seq<RuleV>,
}

impl View for NormalizationConfig {
    type V = NormConfigV;

    open spec fn view(&self) -> NormConfigV {
        NormConfigV {
            lowercase: self.lowercase,
            trim: self.trim,
            rules: self.rewrite_rules@.map_values(|r: RewriteRule| r@),
        }
    }
}

/// Normalize a raw cue: trim, lowercase, the rewrite rules in order, the
/// duplicated-prefix correction; the trace records the raw input, the
/// result, and which rules changed it. There is some `ok` (which of the
/// patterns compiled) under which result and trace are exactly the spec's.
/// Which rewrite rules actually compile: the oracle the normalizer runs
/// under, a function of the configured patterns alone.
pub open spec fn oks_of(config: NormConfigV) -> Seq<bool> {
    config.rules.map_values(|r: RuleV| crate::ext::pattern_compiles(r.pattern))
}

pub fn normalize_cue(raw: &str, config: &NormalizationConfig) -> (r: (String, NormalizeTrace))
    ensures
        r.0@ == normalize_spec(raw@, config@, oks_of(config@)),
        r.1.normalized@ == normalize_spec(raw@, config@, oks_of(config@)),
        r.1.applied_rules@.map_values(|n: String| n@) == normalize_names(
            raw@,
            config@,
            oks_of(config@),
        ),
        exists|ok: Seq<bool>|
            #![auto]
            ok.len() == config@.rules.len() && r.0@ == normalize_spec(raw@, config@, ok)
                && r.1.normalized@ == normalize_spec(raw@, config@, ok)
                && r.1.applied_rules@.map_values(|n: String| n@) == normalize_names(
                raw@,
                config@,
                ok,
            ),
        r.1.raw@ == raw@,
{
    let raw_chars = text::to_chars(raw);
    let mut cur: Vec<char> = if config.trim {
        text::trim_chars(&raw_chars)
    } else {
        let mut copy: Vec<char> = Vec::new();
        let mut i: usize = 0;
        while i < raw_chars.len()
            invariant
                i <= raw_chars@.len(),
                copy@ =~= raw_chars@.take(i as int),
            decreases raw_chars@.len() - i,
        {
            copy.push(raw_chars[i]);
            proof {
                assert(raw_chars@.take(i + 1) =~= raw_chars@.take(i as int).push(
                    raw_chars@[i as int],
                ));
            }
            i = i + 1;
        }
        proof {
            assert(raw_chars@.take(raw_chars@.len() as int) =~= raw_chars@);
        }
        copy
    };
    if config.lowercase {
        cur = text::lower_chars(&cur);
    }
    let ghost base = base_stage(raw@, config@.trim, config@.lowercase);
    proof {
        assert(cur@ == base);
    }
    let mut applied: Vec<String> = Vec::new();
    let mut current: String = text::to_string(&cur);
    let ghost mut oks: Seq<bool> = Seq::empty();
    let mut ri: usize = 0;
    while ri < config.rewrite_rules.len()
        invariant
            ri <= config@.rules.len(),
            config@.rules == config.rewrite_rules@.map_values(|r: RewriteRule| r@),
            oks.len() == ri,
            oks =~= oks_of(config@).take(ri as int),
            current@ == run_rules(base, config@.rules.take(ri as int), oks),
            applied@.map_values(|n: String| n@) == applied_names(
                base,
                config@.rules.take(ri as int),
                oks,
            ),
        decreases config@.rules.len() - ri,
    {
        let rule = &config.rewrite_rules[ri];
        let ghost prev = current@;
        let ghost rule_ok: bool;
        match ext::regex_new(rule.pattern.as_str()) {
            Some(re) => {
                proof {
                    rule_ok = true;
                    assert(crate::ext::pattern_compiles(config@.rules[ri as int].pattern));
                }
                if ext::regex_is_match(&re, current.as_str()) {
                    let replaced = ext::regex_replace_all(&re, current.as_str(), rule.replace.as_str());
                    if !text::str_eq(replaced.as_str(), current.as_str()) {
                        current = replaced;
                        applied.push(rule.name.clone());
                    }
                }
            },
            None => {
                proof {
                    rule_ok = false;
                    assert(!crate::ext::pattern_compiles(config@.rules[ri as int].pattern));
                }
            },
        }
        proof {
            let okn = oks.push(rule_ok);
            assert(okn =~= oks_of(config@).take(ri + 1));
            lemma_run_rules_step(base, config@.rules, oks, rule_ok, ri as int, prev);
            assert(current@ == run_rules(base, config@.rules.take(ri + 1), okn));
            assert(applied@.map_values(|n: String| n@) =~= applied_names(
                base,
                config@.rules.take(ri + 1),
                okn,
            ));
            oks = okn;
        }
        ri = ri + 1;
    }
    proof {
        assert(config@.rules.take(config@.rules.len() as int) =~= config@.rules);
        assert(oks =~= oks_of(config@));
    }
    // duplicated-prefix correction
    let cur_chars = text::to_chars(current.as_str());
    let parts = text::split_chars(&cur_chars, ':');
    let mut fired = false;
    if parts.len() >= 3 {
        let p1 = &parts[1];
        let p2 = &parts[2];
        if p1.len() > 0 && text::eq_chars(p1, p2) {
            fired = true;
        }
    }
    proof {
        assert(fired == dedupe_applies(current@));
    }
    if fired {
        let mut kept: Vec<Vec<char>> = Vec::new();
        let mut i: usize = 0;
        while i < parts.len()
            invariant
                i <= parts@.len(),
                parts@.len() >= 3,
                kept@.map_values(|p: Vec<char>| p@) =~= (if i <= 1 {
                    parts@.map_values(|p: Vec<char>| p@).take(i as int)
                } else {
                    parts@.map_values(|p: Vec<char>| p@).remove(1).take(i - 1)
                }),
            decreases parts@.len() - i,
        {
            if i != 1 {
                kept.push(parts[i].clone());
            }
            proof {
                let pv = parts@.map_values(|p: Vec<char>| p@);
                if i + 1 <= 1 {
                    assert(pv.take(i + 1) =~= pv.take(i as int).push(pv[i as int]));
                } else if i == 1 {
                    assert(pv.remove(1).take(i as int) =~= pv.take(i as int));
                } else {
                    assert(pv.remove(1).take(i as int) =~= pv.remove(1).take(i - 1).push(
                        pv.remove(1)[i - 1],
                    ));
                    assert(pv.remove(1)[i - 1] == pv[i as int]);
                }
            }
            i = i + 1;
        }
        proof {
            let pv = parts@.map_values(|p: Vec<char>| p@);
            assert(pv.remove(1).take(pv.len() - 1) =~= pv.remove(1));
            assert(pv =~= text::split_spec(current@, ':'));
        }
        let joined = text::join_chars(&kept, ':');
        current = text::to_string(&joined);
        let mut tag_chars: Vec<char> = Vec::new();
        tag_chars.push('d');
        tag_chars.push('e');
        tag_chars.push('d');
        tag_chars.push('u');
        tag_chars.push('p');
        tag_chars.push('e');
        tag_chars.push('_');
        tag_chars.push('p');
        tag_chars.push('r');
        tag_chars.push('e');
        tag_chars.push('f');
        tag_chars.push('i');
        tag_chars.push('x');
        let tag = text::to_string(&tag_chars);
        proof {
            reveal_strlit("dedupe_prefix");
            assert(tag@ =~= "dedupe_prefix"@);
        }
        applied.push(tag);
    }
    let normalized_copy = text::to_chars(current.as_str());
    let normalized_again = text::to_string(&normalized_copy);
    let mut raw_copy: String = String::new();
    raw_copy.append(raw);
    proof {
        let okf = oks;
        assert(current@ == normalize_spec(raw@, config@, okf));
        assert(applied@.map_values(|n: String| n@) =~= normalize_names(raw@, config@, okf));
    }
    (
        current,
        NormalizeTrace { raw: raw_copy, normalized: normalized_again, applied_rules: applied },
    )
}

/// One step of the rule fold: running `i + 1` rules is running `i` rules
/// and then the next one.
proof fn lemma_run_rules_step(
    base: Seq<char>,
    rules: Seq<RuleV>,
    oks: Seq<bool>,
    ok_next: bool,
    i: int,
    prev: Seq<char>,
)
    requires
        0 <= i < rules.len(),
        oks.len() == i,
        prev == run_rules(base, rules.take(i), oks),
    ensures
        run_rules(base, rules.take(i + 1), oks.push(ok_next)) == (if ok_next {
            rule_outcome(prev, rules[i])
        } else {
            prev
        }),
        applied_names(base, rules.take(i + 1), oks.push(ok_next)) == applied_names(
            base,
            rules.take(i),
            oks,
        ) + (if ok_next && rule_applied(prev, rules[i]) {
            seq![rules[i].name]
        } else {
            Seq::<Seq<char>>::empty()
        }),
    decreases i,
{
    if i == 0 {
        assert(rules.take(1).drop_first() =~= Seq::<RuleV>::empty().take(0));
        assert(rules.take(1)[0] == rules[0]);
        assert(run_rules(base, rules.take(0), oks) == base);
        let next = if ok_next {
            rule_outcome(base, rules[0])
        } else {
            base
        };
        assert(rules.take(1).drop_first().len() == 0);
        assert(run_rules(next, rules.take(1).drop_first(), oks.push(ok_next).drop_first())
            == next);
        assert(applied_names(next, rules.take(1).drop_first(), oks.push(ok_next).drop_first())
            =~= Seq::<Seq<char>>::empty());
        assert(applied_names(base, rules.take(0), oks) =~= Seq::<Seq<char>>::empty());
    } else {
        let rules1 = rules.drop_first();
        let oks1 = oks.drop_first();
        let base1 = if oks[0] {
            rule_outcome(base, rules[0])
        } else {
            base
        };
        assert(rules.take(i).drop_first() =~= rules1.take(i - 1));
        assert(run_rules(base, rules.take(i), oks) == run_rules(base1, rules1.take(i - 1), oks1));
        lemma_run_rules_step(base1, rules1, oks1, ok_next, i - 1, prev);
        assert(rules.take(i + 1).drop_first() =~= rules1.take(i));
        assert(oks.push(ok_next).drop_first() =~= oks1.push(ok_next));
        assert(rules.take(i + 1)[0] == rules[0]);
        assert(rules1[i - 1] == rules[i]);
        assert(applied_names(base, rules.take(i + 1), oks.push(ok_next)) == (if oks[0]
            && rule_applied(base, rules[0]) {
            seq![rules[0].name]
        } else {
            Seq::<Seq<char>>::empty()
        }) + applied_names(base1, rules1.take(i), oks1.push(ok_next)));
        assert(applied_names(base, rules.take(i), oks) == (if oks[0] && rule_applied(
            base,
            rules[0],
        ) {
            seq![rules[0].name]
        } else {
            Seq::<Seq<char>>::empty()
        }) + applied_names(base1, rules1.take(i - 1), oks1));
    }
}

} // verus!

verus! {

/// Normalization idempotence: with a rule-free configuration that trims
/// and lowercases, normalizing a second time changes nothing, provided
/// the duplicated-prefix correction does not fire on the input (an input
/// on which it fires, such as a cue whose second part repeats more than
/// twice, can normalize further on a later pass).
pub proof fn lemma_normalize_idempotent(raw: Seq<char>, config: NormConfigV)
    requires
        config.trim,
        config.lowercase,
        config.rules.len() == 0,
        !dedupe_applies(base_stage(raw, true, true)),
    ensures
        normalize_spec(
            normalize_spec(raw, config, Seq::empty()),
            config,
            Seq::empty(),
        ) == normalize_spec(raw, config, Seq::empty()),
{
    let t = text::trim_spec(raw);
    let z = text::lower_seq(t);
    assert(base_stage(raw, config.trim, config.lowercase) == z);
    assert(run_rules(z, config.rules, Seq::empty()) == z);
    assert(normalize_spec(raw, config, Seq::empty()) == z);
    // the once-normalized text is already trimmed and lowercased
    text::lemma_trim_front_props(raw);
    text::lemma_trim_back_props(text::trim_front_spec(raw));
    text::lemma_trim_idempotent(raw);
    assert(text::trim_spec(t) == t);
    assert(z.len() == t.len());
    assert forall|i: int| 0 <= i < z.len() implies text::is_space(z[i]) == text::is_space(
        t[i],
    ) by {
        assert(z[i] == text::lower_char(t[i]));
    }
    if z.len() > 0 {
        assert(!text::is_space(t[0])) by {
            if text::is_space(t[0]) {
                assert(text::trim_spec(t).len() < t.len()) by {
                    text::lemma_trim_front_props(t);
                    text::lemma_trim_back_props(text::trim_front_spec(t));
                    assert(text::trim_front_spec(t) == text::trim_front_spec(t.drop_first()));
                }
            }
        }
        assert(!text::is_space(t[t.len() - 1])) by {
            if text::is_space(t[t.len() - 1]) {
                assert(text::trim_back_spec(t) == text::trim_back_spec(t.drop_last()));
                text::lemma_trim_back_props(t.drop_last());
                text::lemma_trim_front_props(t);
                assert(text::trim_spec(t).len() < t.len()) by {
                    text::lemma_trim_back_props(t);
                }
            }
        }
    }
    text::lemma_trim_of_unspaced(z);
    text::lemma_lower_idempotent(t);
    assert(base_stage(z, config.trim, config.lowercase) == text::lower_seq(
        text::trim_spec(z),
    ));
    assert(text::lower_seq(z) == z);
    assert(base_stage(z, config.trim, config.lowercase) == z);
    assert(run_rules(z, config.rules, Seq::empty()) == z);
    assert(normalize_spec(z, config, Seq::empty()) == z);
}

} // verus!
