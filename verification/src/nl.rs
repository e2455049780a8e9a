//! Free-text handling: text normalization and tokenization into query
//! cues (`tok:` unigrams and `phr:` bigrams), with a small stopword list.
//! The token alphabet is ASCII lowercase letters and digits.

use crate::text;
use vstd::prelude::*;

verus! {

/// Whether the character survives tokenization: an ASCII lowercase letter
/// or digit.
pub open spec fn is_token_char(c: char) -> bool {
    (97 <= c as u32 && c as u32 <= 122) || (48 <= c as u32 && c as u32 <= 57)
}

/// Lowercase the text and blank every non-token character.
pub open spec fn mapped_text(s: Seq<char>) -> Seq<char> {
    text::lower_seq(s).map_values(
        |c: char|
            if is_token_char(c) {
                c
            } else {
                ' '
            },
    )
}

/// The non-empty space-separated words of a sequence.
pub open spec fn words_of(s: Seq<char>) -> Seq<Seq<char>> {
    text::split_spec(s, ' ').filter(|w: Seq<char>| w.len() > 0)
}

/// The normalized form of free text: lowercase, non-alphanumerics
/// blanked, words joined by single spaces.
pub open spec fn normalize_text_spec(s: Seq<char>) -> Seq<char> {
    text::join_spec(words_of(mapped_text(s)), ' ')
}

/// Whether a token is in the stopword list.
pub open spec fn is_stopword(t: Seq<char>) -> bool {
    ||| t == "the"@
    ||| t == "is"@
    ||| t == "at"@
    ||| t == "which"@
    ||| t == "on"@
    ||| t == "in"@
    ||| t == "a"@
    ||| t == "an"@
    ||| t == "and"@
    ||| t == "or"@
    ||| t == "for"@
    ||| t == "to"@
    ||| t == "of"@
    ||| t == "it"@
    ||| t == "this"@
    ||| t == "that"@
}

/// The tokens tokenization keeps: longer than one character and not a
/// stopword.
pub open spec fn kept_tokens(s: Seq<char>) -> Seq<Seq<char>> {
    words_of(mapped_text(s)).filter(|t: Seq<char>| t.len() > 1 && !is_stopword(t))
}

/// The cues tokenization emits: `tok:<t>` for every kept token, then
/// `phr:<a>_<b>` for every adjacent pair of kept tokens.
pub open spec fn tokenize_spec(s: Seq<char>) -> Seq<Seq<char>> {
    let kept = kept_tokens(s);
    let toks = kept.map_values(|t: Seq<char>| "tok:"@ + t);
    let phrs = if kept.len() >= 2 {
        Seq::new((kept.len() - 1) as nat, |i: int| "phr:"@ + kept[i] + "_"@ + kept[i + 1])
    } else {
        Seq::<Seq<char>>::empty()
    };
    toks + phrs
}

/// Whether the token is a stopword, executable.
fn is_stopword_exec(t: &str) -> (r: bool)
    ensures
        r == is_stopword(t@),
{
    text::str_eq(t, "the") || text::str_eq(t, "is") || text::str_eq(t, "at") || text::str_eq(
        t,
        "which",
    ) || text::str_eq(t, "on") || text::str_eq(t, "in") || text::str_eq(t, "a") || text::str_eq(
        t,
        "an",
    ) || text::str_eq(t, "and") || text::str_eq(t, "or") || text::str_eq(t, "for")
        || text::str_eq(t, "to") || text::str_eq(t, "of") || text::str_eq(t, "it")
        || text::str_eq(t, "this") || text::str_eq(t, "that")
}

/// The kept tokens of the text, as character vectors.
fn kept_tokens_exec(s: &str) -> (r: Vec<Vec<char>>)
    ensures
        r@.map_values(|t: Vec<char>| t@) == kept_tokens(s@),
{
    let raw = text::to_chars(s);
    let lowered = text::lower_chars(&raw);
    let mut mapped: Vec<char> = Vec::new();
    let mut i: usize = 0;
    while i < lowered.len()
        invariant
            i <= lowered@.len(),
            lowered@ == text::lower_seq(s@),
            mapped@ =~= mapped_text(s@).take(i as int),
        decreases lowered@.len() - i,
    {
        let c = lowered[i];
        let u = c as u32;
        let keep = (97 <= u && u <= 122) || (48 <= u && u <= 57);
        if keep {
            mapped.push(c);
        } else {
            mapped.push(' ');
        }
        proof {
            let mt = mapped_text(s@);
            assert(mt[i as int] == if is_token_char(c) {
                c
            } else {
                ' '
            });
            assert(mt.take(i + 1) =~= mt.take(i as int).push(mt[i as int]));
        }
        i = i + 1;
    }
    proof {
        assert(mapped_text(s@).take(mapped_text(s@).len() as int) =~= mapped_text(s@));
        assert(mapped@ == mapped_text(s@));
    }
    let parts = text::split_chars(&mapped, ' ');
    let ghost pv = parts@.map_values(|p: Vec<char>| p@);
    proof {
        assert(pv =~= text::split_spec(mapped_text(s@), ' '));
    }
    let ghost keep_pred = |t: Seq<char>| t.len() > 1 && !is_stopword(t);
    let mut kept: Vec<Vec<char>> = Vec::new();
    let mut j: usize = 0;
    proof {
        reveal(Seq::filter);
        assert(pv.take(0).filter(keep_pred) =~= Seq::<Seq<char>>::empty());
    }
    while j < parts.len()
        invariant
            j <= parts@.len(),
            pv == parts@.map_values(|p: Vec<char>| p@),
            keep_pred == (|t: Seq<char>| t.len() > 1 && !is_stopword(t)),
            kept@.map_values(|t: Vec<char>| t@) == pv.take(j as int).filter(keep_pred),
        decreases parts@.len() - j,
    {
        let word = &parts[j];
        proof {
            reveal(Seq::filter);
            assert(pv.take(j + 1).drop_last() =~= pv.take(j as int));
            assert(pv.take(j + 1).last() == word@);
        }
        if word.len() > 1 {
            let ws = text::to_string(word);
            if !is_stopword_exec(ws.as_str()) {
                kept.push(word.clone());
            }
        }
        proof {
            assert(kept@.map_values(|t: Vec<char>| t@) =~= pv.take(j + 1).filter(keep_pred));
        }
        j = j + 1;
    }
    proof {
        assert(pv.take(parts@.len() as int) =~= pv);
        assert(words_of(mapped_text(s@)).filter(
            |t: Seq<char>| t.len() > 1 && !is_stopword(t),
        ) == text::split_spec(mapped_text(s@), ' ').filter(|w: Seq<char>| w.len() > 0).filter(
            keep_pred,
        ));
        lemma_filter_twice(pv, |w: Seq<char>| w.len() > 0, keep_pred);
    }
    kept
}

/// Filtering by emptiness and then by the keep predicate is one filter,
/// because kept tokens are never empty.
proof fn lemma_filter_twice(
    s: Seq<Seq<char>>,
    nonempty: spec_fn(Seq<char>) -> bool,
    keep: spec_fn(Seq<char>) -> bool,
)
    requires
        nonempty == (|w: Seq<char>| w.len() > 0),
        keep == (|t: Seq<char>| t.len() > 1 && !is_stopword(t)),
    ensures
        s.filter(nonempty).filter(keep) == s.filter(keep),
    decreases s.len(),
{
    reveal(Seq::filter);
    if s.len() == 0 {
    } else {
        lemma_filter_twice(s.drop_last(), nonempty, keep);
        if nonempty(s.last()) {
            assert(s.filter(nonempty).drop_last() =~= s.drop_last().filter(nonempty));
        }
    }
}

/// Normalize free text: lowercase, replace every character that is not an
/// ASCII letter or digit with a space, and join the words with single
/// spaces.
pub fn normalize_text(s: &str) -> (r: String)
    ensures
        r@ == normalize_text_spec(s@),
{
    let raw = text::to_chars(s);
    let lowered = text::lower_chars(&raw);
    let mut mapped: Vec<char> = Vec::new();
    let mut i: usize = 0;
    while i < lowered.len()
        invariant
            i <= lowered@.len(),
            lowered@ == text::lower_seq(s@),
            mapped@ =~= mapped_text(s@).take(i as int),
        decreases lowered@.len() - i,
    {
        let c = lowered[i];
        let u = c as u32;
        let keep = (97 <= u && u <= 122) || (48 <= u && u <= 57);
        if keep {
            mapped.push(c);
        } else {
            mapped.push(' ');
        }
        proof {
            let mt = mapped_text(s@);
            assert(mt[i as int] == if is_token_char(c) {
                c
            } else {
                ' '
            });
            assert(mt.take(i + 1) =~= mt.take(i as int).push(mt[i as int]));
        }
        i = i + 1;
    }
    proof {
        assert(mapped_text(s@).take(mapped_text(s@).len() as int) =~= mapped_text(s@));
        assert(mapped@ == mapped_text(s@));
    }
    let parts = text::split_chars(&mapped, ' ');
    let ghost pv = parts@.map_values(|p: Vec<char>| p@);
    let ghost nonempty = |w: Seq<char>| w.len() > 0;
    let mut words: Vec<Vec<char>> = Vec::new();
    let mut j: usize = 0;
    proof {
        reveal(Seq::filter);
        assert(pv =~= text::split_spec(mapped_text(s@), ' '));
        assert(pv.take(0).filter(nonempty) =~= Seq::<Seq<char>>::empty());
    }
    while j < parts.len()
        invariant
            j <= parts@.len(),
            pv == parts@.map_values(|p: Vec<char>| p@),
            nonempty == (|w: Seq<char>| w.len() > 0),
            words@.map_values(|t: Vec<char>| t@) == pv.take(j as int).filter(nonempty),
        decreases parts@.len() - j,
    {
        proof {
            reveal(Seq::filter);
            assert(pv.take(j + 1).drop_last() =~= pv.take(j as int));
            assert(pv.take(j + 1).last() == parts@[j as int]@);
        }
        if parts[j].len() > 0 {
            words.push(parts[j].clone());
        }
        proof {
            assert(words@.map_values(|t: Vec<char>| t@) =~= pv.take(j + 1).filter(nonempty));
        }
        j = j + 1;
    }
    proof {
        assert(pv.take(parts@.len() as int) =~= pv);
    }
    let joined = text::join_chars(&words, ' ');
    text::to_string(&joined)
}

/// Tokenize free text into query cues: `tok:<t>` for each kept token and
/// `phr:<a>_<b>` for each adjacent pair, in that order.
pub fn tokenize_to_cues(s: &str) -> (r: Vec<String>)
    ensures
        r@.map_values(|c: String| c@) == tokenize_spec(s@),
{
    let kept = kept_tokens_exec(s);
    let ghost kv = kept@.map_values(|t: Vec<char>| t@);
    let mut out: Vec<String> = Vec::new();
    let mut i: usize = 0;
    proof {
        reveal_strlit("tok:");
        reveal_strlit("phr:");
        reveal_strlit("_");
    }
    while i < kept.len()
        invariant
            i <= kept@.len(),
            kv == kept@.map_values(|t: Vec<char>| t@),
            out@.len() == i,
            forall|j: int| 0 <= j < i ==> out@[j]@ == "tok:"@ + kv[j],
        decreases kept@.len() - i,
    {
        let mut cs: Vec<char> = Vec::new();
        cs.push('t');
        cs.push('o');
        cs.push('k');
        cs.push(':');
        let word = &kept[i];
        let mut j: usize = 0;
        while j < word.len()
            invariant
                j <= word@.len(),
                cs@ =~= seq!['t', 'o', 'k', ':'] + word@.take(j as int),
            decreases word@.len() - j,
        {
            cs.push(word[j]);
            proof {
                assert(word@.take(j + 1) =~= word@.take(j as int).push(word@[j as int]));
            }
            j = j + 1;
        }
        proof {
            reveal_strlit("tok:");
            assert(word@.take(word@.len() as int) =~= word@);
            assert(cs@ =~= "tok:"@ + kv[i as int]);
        }
        out.push(text::to_string(&cs));
        i = i + 1;
    }
    let ghost toks = kv.map_values(|t: Seq<char>| "tok:"@ + t);
    proof {
        assert(out@.map_values(|c: String| c@) =~= toks);
    }
    if kept.len() >= 2 {
        let mut p: usize = 0;
        let ghost phrs = Seq::new(
            (kv.len() - 1) as nat,
            |i: int| "phr:"@ + kv[i] + "_"@ + kv[i + 1],
        );
        while p < kept.len() - 1
            invariant
                kept@.len() >= 2,
                p <= kept@.len() - 1,
                kv == kept@.map_values(|t: Vec<char>| t@),
                phrs == Seq::new(
                    (kv.len() - 1) as nat,
                    |i: int| "phr:"@ + kv[i] + "_"@ + kv[i + 1],
                ),
                out@.len() == kv.len() + p,
                forall|j: int| 0 <= j < kv.len() ==> out@[j]@ == "tok:"@ + kv[j],
                forall|j: int| 0 <= j < p ==> out@[kv.len() + j]@ == phrs[j],
            decreases kept@.len() - 1 - p,
        {
            let mut cs: Vec<char> = Vec::new();
            cs.push('p');
            cs.push('h');
            cs.push('r');
            cs.push(':');
            let a = &kept[p];
            let mut j: usize = 0;
            while j < a.len()
                invariant
                    j <= a@.len(),
                    cs@ =~= seq!['p', 'h', 'r', ':'] + a@.take(j as int),
                decreases a@.len() - j,
            {
                cs.push(a[j]);
                proof {
                    assert(a@.take(j + 1) =~= a@.take(j as int).push(a@[j as int]));
                }
                j = j + 1;
            }
            cs.push('_');
            let b = &kept[p + 1];
            let mut j2: usize = 0;
            proof {
                assert(a@.take(a@.len() as int) =~= a@);
            }
            while j2 < b.len()
                invariant
                    j2 <= b@.len(),
                    cs@ =~= seq!['p', 'h', 'r', ':'] + a@ + seq!['_'] + b@.take(j2 as int),
                decreases b@.len() - j2,
            {
                cs.push(b[j2]);
                proof {
                    assert(b@.take(j2 + 1) =~= b@.take(j2 as int).push(b@[j2 as int]));
                }
                j2 = j2 + 1;
            }
            proof {
                reveal_strlit("phr:");
                reveal_strlit("_");
                assert(b@.take(b@.len() as int) =~= b@);
                assert(a@ == kv[p as int] && b@ == kv[p + 1]);
                assert(cs@ =~= "phr:"@ + kv[p as int] + "_"@ + kv[p + 1]);
            }
            out.push(text::to_string(&cs));
            p = p + 1;
        }
        proof {
            assert(out@.map_values(|c: String| c@) =~= tokenize_spec(s@));
        }
    } else {
        proof {
            assert(tokenize_spec(s@) =~= toks);
            assert(out@.map_values(|c: String| c@) =~= tokenize_spec(s@));
        }
    }
    out
}

} // verus!
