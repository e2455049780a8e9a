//! Taxonomy validation: which cues a project accepts.
//!
//! A cue `key:value` is accepted when the key is allowed (an empty key
//! list means no restriction) and, if any value constraint exists for the
//! key, the value matches an exact value or a prefix. Rejections carry a
//! code: `bad_format`, `unknown_key` or `unknown_value`.

use crate::text;
use vstd::prelude::*;

verus! {

/// The schema of allowed cues. Empty `allowed_keys` means keys are not
/// restricted. The two constraint tables are association lists from a key
/// to its allowed exact values, or allowed value prefixes.
pub struct Taxonomy {
    pub allowed_keys: Vec<String>,
    pub allowed_values: Vec<(String, Vec<String>)>,
    pub allowed_value_prefixes: Vec<(String, Vec<String>)>,
}

/// The mathematical content of a taxonomy.
pub ghost struct TaxonomyV {
    pub allowed_keys: Seq<Seq<char>>,
    pub allowed_values: Seq<(Seq<char>, Seq<Seq<char>>)>,
    pub allowed_value_prefixes: Seq<(Seq<char>, Seq<Seq<char>>)>,
}

impl View for Taxonomy {
    type V = TaxonomyV;

    open spec fn view(&self) -> TaxonomyV {
        TaxonomyV {
            allowed_keys: self.allowed_keys@.map_values(|s: String| s@),
            allowed_values: self.allowed_values@.map_values(
                |e: (String, Vec<String>)| (e.0@, e.1@.map_values(|s: String| s@)),
            ),
            allowed_value_prefixes: self.allowed_value_prefixes@.map_values(
                |e: (String, Vec<String>)| (e.0@, e.1@.map_values(|s: String| s@)),
            ),
        }
    }
}

impl Default for Taxonomy {
    /// The default taxonomy is open: no keys restricted, no constraints.
    fn default() -> (r: Self)
        ensures
            r@.allowed_keys.len() == 0,
            r@.allowed_values.len() == 0,
            r@.allowed_value_prefixes.len() == 0,
    {
        Taxonomy {
            allowed_keys: Vec::new(),
            allowed_values: Vec::new(),
            allowed_value_prefixes: Vec::new(),
        }
    }
}

/// The first entry for the key in an association list, if any.
pub open spec fn assoc_get(entries: Seq<(Seq<char>, Seq<Seq<char>>)>, key: Seq<char>) -> Option<
    Seq<Seq<char>>,
>
    decreases entries.len(),
{
    if entries.len() == 0 {
        None
    } else if entries[0].0 == key {
        Some(entries[0].1)
    } else {
        assoc_get(entries.drop_first(), key)
    }
}

/// The key half of a cue: everything before the first colon.
pub open spec fn cue_key(c: Seq<char>) -> Seq<char> {
    text::split_spec(c, ':')[0]
}

/// The value half of a cue: everything after the first colon (it may
/// itself contain colons).
pub open spec fn cue_value(c: Seq<char>) -> Seq<char> {
    text::join_spec(text::split_spec(c, ':').drop_first(), ':')
}

/// Whether the cue has the canonical `key:value` shape with both halves
/// non-empty.
pub open spec fn format_ok(c: Seq<char>) -> bool {
    text::split_spec(c, ':').len() >= 2 && cue_key(c).len() > 0 && cue_value(c).len() > 0
}

/// Whether the taxonomy allows the key: no restriction, or listed.
pub open spec fn key_allowed(tax: TaxonomyV, key: Seq<char>) -> bool {
    tax.allowed_keys.len() == 0 || tax.allowed_keys.contains(key)
}

/// Whether the taxonomy allows the value under the key: no constraint for
/// the key at all, or an exact value matches, or a prefix matches.
pub open spec fn value_allowed(tax: TaxonomyV, key: Seq<char>, value: Seq<char>) -> bool {
    let exact = assoc_get(tax.allowed_values, key);
    let prefixes = assoc_get(tax.allowed_value_prefixes, key);
    if exact is None && prefixes is None {
        true
    } else {
        let exact_ok = match exact {
            Some(vals) => vals.contains(value),
            None => false,
        };
        let prefix_ok = match prefixes {
            Some(ps) => exists|i: int|
                0 <= i < ps.len() && (#[trigger] ps[i]).is_prefix_of(value),
            None => false,
        };
        exact_ok || prefix_ok
    }
}

/// The three ways a value passes: no constraint for the key, an exact
/// match, or a prefix match.
pub proof fn lemma_value_allowed_cases(tax: TaxonomyV, key: Seq<char>, value: Seq<char>)
    ensures
        value_allowed(tax, key, value) <==> ({
            let exact = assoc_get(tax.allowed_values, key);
            let prefixes = assoc_get(tax.allowed_value_prefixes, key);
            ||| (exact is None && prefixes is None)
            ||| (exact matches Some(vals) && vals.contains(value))
            ||| (prefixes matches Some(ps) && exists|i: int|
                0 <= i < ps.len() && (#[trigger] ps[i]).is_prefix_of(value))
        }),
{
}

/// Whether the taxonomy accepts the cue.
pub open spec fn accepts(tax: TaxonomyV, c: Seq<char>) -> bool {
    format_ok(c) && key_allowed(tax, cue_key(c)) && value_allowed(tax, cue_key(c), cue_value(c))
}

/// The code a rejected cue carries.
pub open spec fn reject_code(tax: TaxonomyV, c: Seq<char>) -> Seq<char> {
    if !format_ok(c) {
        "bad_format"@
    } else if !key_allowed(tax, cue_key(c)) {
        "unknown_key"@
    } else {
        "unknown_value"@
    }
}

/// A cue the taxonomy rejected, with the code and a readable reason.
pub struct RejectedCue {
    pub cue: String,
    pub code: String,
    pub detail: String,
}

/// What validation produced: the accepted cues in input order, and the
/// rejected ones with their codes.
pub struct ValidationReport {
    pub accepted: Vec<String>,
    pub rejected: Vec<RejectedCue>,
}

/// The lookup of an association list, executable.
fn assoc_find<'a>(entries: &'a Vec<(String, Vec<String>)>, key: &str) -> (r: Option<
    &'a Vec<String>,
>)
    ensures
        match r {
            Some(v) => assoc_get(
                entries@.map_values(|e: (String, Vec<String>)| (e.0@, e.1@.map_values(|s: String| s@))),
                key@,
            ) == Some(v@.map_values(|s: String| s@)),
            None => assoc_get(
                entries@.map_values(|e: (String, Vec<String>)| (e.0@, e.1@.map_values(|s: String| s@))),
                key@,
            ) is None,
        },
{
    let ghost ev = entries@.map_values(
        |e: (String, Vec<String>)| (e.0@, e.1@.map_values(|s: String| s@)),
    );
    let mut i: usize = 0;
    proof {
        assert(ev.skip(0) =~= ev);
    }
    while i < entries.len()
        invariant
            i <= entries@.len(),
            ev == entries@.map_values(
                |e: (String, Vec<String>)| (e.0@, e.1@.map_values(|s: String| s@)),
            ),
            assoc_get(ev, key@) == assoc_get(ev.skip(i as int), key@),
        decreases entries@.len() - i,
    {
        proof {
            assert(ev.skip(i as int).len() > 0);
            assert(ev.skip(i as int)[0] == ev[i as int]);
            assert(ev.skip(i as int).drop_first() =~= ev.skip(i + 1));
        }
        if text::str_eq(entries[i].0.as_str(), key) {
            return Some(&entries[i].1);
        }
        i = i + 1;
    }
    proof {
        assert(ev.skip(entries@.len() as int).len() == 0);
    }
    None
}

/// Whether any string in the list equals the given characters.
fn list_contains(list: &Vec<String>, item: &Vec<char>) -> (r: bool)
    ensures
        r == list@.map_values(|s: String| s@).contains(item@),
{
    let ghost lv = list@.map_values(|s: String| s@);
    let mut i: usize = 0;
    while i < list.len()
        invariant
            i <= list@.len(),
            lv == list@.map_values(|s: String| s@),
            forall|j: int| 0 <= j < i ==> lv[j] != item@,
        decreases list@.len() - i,
    {
        let cs = text::to_chars(list[i].as_str());
        if text::eq_chars(&cs, item) {
            proof {
                assert(lv[i as int] == item@);
            }
            return true;
        }
        proof {
            assert(lv[i as int] == cs@);
        }
        i = i + 1;
    }
    proof {
        assert(!lv.contains(item@));
    }
    false
}

/// Whether any prefix in the list starts the given characters.
fn list_has_prefix_of(list: &Vec<String>, item: &Vec<char>) -> (r: bool)
    ensures
        r == exists|i: int| 0 <= i < list@.len() && (#[trigger] list@[i])@.is_prefix_of(item@),
{
    let ghost lv = list@.map_values(|s: String| s@);
    let mut i: usize = 0;
    while i < list.len()
        invariant
            i <= list@.len(),
            lv == list@.map_values(|s: String| s@),
            forall|j: int| 0 <= j < i ==> !(#[trigger] list@[j])@.is_prefix_of(item@),
        decreases list@.len() - i,
    {
        let cs = text::to_chars(list[i].as_str());
        if text::starts_with_chars(item, &cs) {
            return true;
        }
        i = i + 1;
    }
    false
}

/// Split one cue into its key and value halves, when it has them.
fn split_cue(c: &Vec<char>) -> (r: Option<(Vec<char>, Vec<char>)>)
    ensures
        match r {
            Some(kv) => text::split_spec(c@, ':').len() >= 2 && kv.0@ == cue_key(c@) && kv.1@
                == cue_value(c@),
            None => text::split_spec(c@, ':').len() < 2,
        },
{
    let parts = text::split_chars(c, ':');
    if parts.len() < 2 {
        return None;
    }
    let key = parts[0].clone();
    let mut rest: Vec<Vec<char>> = Vec::new();
    let mut i: usize = 1;
    while i < parts.len()
        invariant
            1 <= i <= parts@.len(),
            rest@.map_values(|p: Vec<char>| p@) =~= parts@.map_values(
                |p: Vec<char>| p@,
            ).drop_first().take(i - 1),
        decreases parts@.len() - i,
    {
        rest.push(parts[i].clone());
        proof {
            let pv = parts@.map_values(|p: Vec<char>| p@).drop_first();
            assert(pv.take(i as int) =~= pv.take(i - 1).push(pv[i - 1]));
        }
        i = i + 1;
    }
    proof {
        let pv = parts@.map_values(|p: Vec<char>| p@);
        assert(pv.drop_first().take(pv.len() - 1) =~= pv.drop_first());
        assert(pv =~= text::split_spec(c@, ':'));
        assert(key@ == pv[0]);
    }
    let value = text::join_chars(&rest, ':');
    Some((key, value))
}

/// Decide one cue: nothing when the taxonomy accepts it, else the
/// rejection code and its readable reason.
fn classify(cue_chars: &Vec<char>, taxonomy: &Taxonomy) -> (r: Option<(String, String)>)
    ensures
        r is None <==> accepts(taxonomy@, cue_chars@),
        r matches Some(cd) ==> cd.0@ == reject_code(taxonomy@, cue_chars@),
{
    match split_cue(cue_chars) {
        None => {
            proof {
                assert(!format_ok(cue_chars@));
            }
            Some((new_code_string(0), bad_format_detail()))
        },
        Some((key, value)) => {
            if key.len() == 0 || value.len() == 0 {
                proof {
                    assert(!format_ok(cue_chars@));
                }
                Some((new_code_string(0), bad_format_detail()))
            } else {
                proof {
                    assert(format_ok(cue_chars@));
                }
                let key_str = text::to_string(&key);
                if taxonomy.allowed_keys.len() > 0 && !list_contains(&taxonomy.allowed_keys, &key)
                {
                    proof {
                        assert(taxonomy@.allowed_keys == taxonomy.allowed_keys@.map_values(
                            |s: String| s@,
                        ));
                        assert(!key_allowed(taxonomy@, cue_key(cue_chars@)));
                    }
                    Some((new_code_string(1), unknown_key_detail(key_str.as_str())))
                } else {
                    proof {
                        assert(key_allowed(taxonomy@, cue_key(cue_chars@)));
                    }
                    let exact = assoc_find(&taxonomy.allowed_values, key_str.as_str());
                    let prefixes = assoc_find(&taxonomy.allowed_value_prefixes, key_str.as_str());
                    let ghost tv = taxonomy@;
                    let ghost k = cue_key(cue_chars@);
                    let ghost v = cue_value(cue_chars@);
                    let constrained = exact.is_some() || prefixes.is_some();
                    let mut ok = false;
                    if !constrained {
                        ok = true;
                        proof {
                            lemma_value_allowed_cases(tv, k, v);
                            assert(value_allowed(tv, k, v));
                        }
                    }
                    if !ok {
                        if let Some(vals) = exact {
                            if list_contains(vals, &value) {
                                ok = true;
                                proof {
                                    lemma_value_allowed_cases(tv, k, v);
                                    assert(value_allowed(tv, k, v));
                                }
                            }
                        }
                    }
                    if !ok {
                        if let Some(ps) = prefixes {
                            if list_has_prefix_of(ps, &value) {
                                ok = true;
                                proof {
                                    let psv = ps@.map_values(|s: String| s@);
                                    let w = choose|i: int|
                                        0 <= i < ps@.len() && (#[trigger] ps@[i])@.is_prefix_of(
                                            value@,
                                        );
                                    assert(psv[w].is_prefix_of(v));
                                    assert(assoc_get(tv.allowed_value_prefixes, k) == Some(psv));
                                    assert(exists|i: int|
                                        0 <= i < psv.len() && (#[trigger] psv[i]).is_prefix_of(v));
                                    lemma_value_allowed_cases(tv, k, v);
                                    assert(value_allowed(tv, k, v));
                                }
                            }
                        }
                    }
                    if ok {
                        None
                    } else {
                        proof {
                            let ex = assoc_get(tv.allowed_values, k);
                            let pf = assoc_get(tv.allowed_value_prefixes, k);
                            match ex {
                                Some(vals) => {
                                    assert(!vals.contains(v));
                                },
                                None => {},
                            }
                            match pf {
                                Some(psv) => {
                                    let pl = match prefixes {
                                        Some(p) => p,
                                        None => arbitrary(),
                                    };
                                    assert(psv == pl@.map_values(|s: String| s@));
                                    assert forall|i: int| 0 <= i < psv.len() implies !(
                                    #[trigger] psv[i]).is_prefix_of(v) by {
                                        assert(psv[i] == pl@[i]@);
                                    }
                                },
                                None => {},
                            }
                            lemma_value_allowed_cases(tv, k, v);
                            assert(!value_allowed(tv, k, v));
                        }
                        let value_str = text::to_string(&value);
                        Some(
                            (
                                new_code_string(2),
                                unknown_value_detail(value_str.as_str(), key_str.as_str()),
                            ),
                        )
                    }
                }
            }
        },
    }
}

/// Validate cues against the taxonomy: accepted cues keep their input
/// order; every rejected cue carries the code the spec assigns it.
pub fn validate_cues(cues: Vec<String>, taxonomy: &Taxonomy) -> (r: ValidationReport)
    ensures
        r.accepted@.map_values(|s: String| s@) == cues@.map_values(|s: String| s@).filter(
            |c: Seq<char>| accepts(taxonomy@, c),
        ),
        r.rejected@.map_values(|rc: RejectedCue| rc.cue@) == cues@.map_values(
            |s: String| s@,
        ).filter(|c: Seq<char>| !accepts(taxonomy@, c)),
        forall|i: int|
            0 <= i < r.rejected@.len() ==> (#[trigger] r.rejected@[i]).code@ == reject_code(
                taxonomy@,
                r.rejected@[i].cue@,
            ),
{
    let ghost cv = cues@.map_values(|s: String| s@);
    let ghost acc_pred = |c: Seq<char>| accepts(taxonomy@, c);
    let ghost rej_pred = |c: Seq<char>| !accepts(taxonomy@, c);
    let mut accepted: Vec<String> = Vec::new();
    let mut rejected: Vec<RejectedCue> = Vec::new();
    let mut i: usize = 0;
    proof {
        reveal(Seq::filter);
        assert(cv.take(0).filter(acc_pred) =~= Seq::<Seq<char>>::empty());
        assert(cv.take(0).filter(rej_pred) =~= Seq::<Seq<char>>::empty());
    }
    while i < cues.len()
        invariant
            i <= cues@.len(),
            cv == cues@.map_values(|s: String| s@),
            acc_pred == (|c: Seq<char>| accepts(taxonomy@, c)),
            rej_pred == (|c: Seq<char>| !accepts(taxonomy@, c)),
            accepted@.map_values(|s: String| s@) == cv.take(i as int).filter(acc_pred),
            rejected@.map_values(|rc: RejectedCue| rc.cue@) == cv.take(i as int).filter(rej_pred),
            forall|j: int|
                0 <= j < rejected@.len() ==> (#[trigger] rejected@[j]).code@ == reject_code(
                    taxonomy@,
                    rejected@[j].cue@,
                ),
        decreases cues@.len() - i,
    {
        let cue = cues[i].clone();
        let cue_chars = text::to_chars(cue.as_str());
        proof {
            assert(cue@ == cv[i as int]);
        }
        let verdict = classify(&cue_chars, taxonomy);
        proof {
            assert(cv.take(i + 1).drop_last() =~= cv.take(i as int));
            assert(cv.take(i + 1).last() == cue@);
            reveal(Seq::filter);
        }
        match verdict {
            None => {
                accepted.push(cue);
                proof {
                    assert(accepted@.map_values(|s: String| s@) =~= cv.take(i + 1).filter(
                        acc_pred,
                    ));
                    assert(rejected@.map_values(|rc: RejectedCue| rc.cue@) =~= cv.take(
                        i + 1,
                    ).filter(rej_pred));
                }
            },
            Some((code, detail)) => {
                rejected.push(RejectedCue { cue, code, detail });
                proof {
                    assert(accepted@.map_values(|s: String| s@) =~= cv.take(i + 1).filter(
                        acc_pred,
                    ));
                    assert(rejected@.map_values(|rc: RejectedCue| rc.cue@) =~= cv.take(
                        i + 1,
                    ).filter(rej_pred));
                }
            },
        }
        i = i + 1;
    }
    proof {
        assert(cv.take(cues@.len() as int) =~= cv);
    }
    ValidationReport { accepted, rejected }
}

/// The rejection code strings: `bad_format`, `unknown_key`,
/// `unknown_value`.
fn new_code_string(which: u8) -> (r: String)
    ensures
        which == 0 ==> r@ == "bad_format"@,
        which == 1 ==> r@ == "unknown_key"@,
        which == 2 ==> r@ == "unknown_value"@,
{
    if which == 0 {
        let mut s = String::new();
        s.append("bad_format");
        s
    } else if which == 1 {
        let mut s = String::new();
        s.append("unknown_key");
        s
    } else {
        let mut s = String::new();
        s.append("unknown_value");
        s
    }
}

/// The reason a malformed cue reports.
fn bad_format_detail() -> (r: String)
    ensures
        r@ == "Cue must be in 'key:value' format"@,
{
    let mut s = String::new();
    s.append("Cue must be in 'key:value' format");
    s
}

/// The reason an unknown key reports.
fn unknown_key_detail(key: &str) -> (r: String)
    ensures
        r@ == "Key '"@ + key@ + "' is not in allowed_keys"@,
{
    let mut s = String::new();
    s.append("Key '");
    s.append(key);
    s.append("' is not in allowed_keys");
    s
}

/// The reason a disallowed value reports.
fn unknown_value_detail(value: &str, key: &str) -> (r: String)
    ensures
        r@ == "Value '"@ + value@ + "' is not allowed for key '"@ + key@ + "'"@,
{
    let mut s = String::new();
    s.append("Value '");
    s.append(value);
    s.append("' is not allowed for key '");
    s.append(key);
    s.append("'");
    s
}

} // verus!
