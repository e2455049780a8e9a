//! The memory store and cue index: a keyed map of memories and, for each
//! cue, the insertion-ordered set of memory ids (tail = most recent).
//!
//! The central invariant (index consistency): a memory id appears in the
//! ordered set of every cue the memory carries, and in no other set.
//! Every operation here states the exact new state of both maps.

use crate::ext;
use crate::structures::seq_reposition;
use crate::structures::lemma_remove_value;
use crate::structures::MemView;
use crate::structures::Memory;
use crate::structures::OrderedSet;
use crate::fixed::SCALE;
use crate::text;
use vstd::prelude::*;

verus! {

/// The canonical form of one cue: ASCII-lowercased, then trimmed.
pub open spec fn cue_canon_spec(c: Seq<char>) -> Seq<char> {
    text::trim_spec(text::lower_seq(c))
}

/// A canonical cue: non-empty and fixed under canonicalization.
pub open spec fn cue_ok(c: Seq<char>) -> bool {
    c.len() > 0 && c == cue_canon_spec(c)
}

/// Keep the first occurrence of each element, dropping later repeats.
pub open spec fn dedup(s: Seq<Seq<char>>) -> Seq<Seq<char>>
    decreases s.len(),
{
    if s.len() == 0 {
        s
    } else {
        let d = dedup(s.drop_last());
        if d.contains(s.last()) {
            d
        } else {
            d.push(s.last())
        }
    }
}

/// Deduplication keeps exactly the original membership, without repeats.
pub proof fn lemma_dedup_props(s: Seq<Seq<char>>)
    ensures
        dedup(s).no_duplicates(),
        forall|x: Seq<char>| dedup(s).contains(x) <==> s.contains(x),
        dedup(s).len() <= s.len(),
    decreases s.len(),
{
    if s.len() > 0 {
        lemma_dedup_props(s.drop_last());
        let d = dedup(s.drop_last());
        assert forall|x: Seq<char>| #[trigger] s.contains(x) implies dedup(s).contains(x) by {
            let j = choose|j: int| 0 <= j < s.len() && s[j] == x;
            if j < s.len() - 1 {
                assert(s.drop_last()[j] == x);
                assert(s.drop_last().contains(x));
                assert(d.contains(x));
                let k = choose|k: int| 0 <= k < d.len() && d[k] == x;
                if !d.contains(s.last()) {
                    assert(dedup(s)[k] == x);
                }
            } else {
                assert(x == s.last());
                if !d.contains(s.last()) {
                    assert(dedup(s)[d.len() as int] == x);
                }
            }
        }
        assert forall|x: Seq<char>| #[trigger] dedup(s).contains(x) implies s.contains(x) by {
            let k = choose|k: int| 0 <= k < dedup(s).len() && dedup(s)[k] == x;
            if d.contains(s.last()) {
                assert(d[k] == x);
                assert(d.contains(x));
            } else {
                if k < d.len() {
                    assert(d[k] == x);
                    assert(d.contains(x));
                } else {
                    assert(x == s.last());
                    assert(s[s.len() - 1] == x);
                }
            }
            if d.contains(x) {
                assert(s.drop_last().contains(x));
                let j = choose|j: int| 0 <= j < s.drop_last().len() && s.drop_last()[j] == x;
                assert(s.drop_last() =~= s.subrange(0, s.len() - 1));
                assert(s.drop_last()[j] == s[j]);
                assert(s[j] == x);
            } else {
                assert(x == s.last());
                assert(s[s.len() - 1] == x);
            }
        }
    }
}

/// The canonical cue list of a raw input list: each cue canonicalized,
/// empties dropped, repeats dropped.
pub open spec fn canon_cues_spec(l: Seq<Seq<char>>) -> Seq<Seq<char>> {
    dedup(l.map_values(|c: Seq<char>| cue_canon_spec(c)).filter(|c: Seq<char>| c.len() > 0))
}

/// A canonicalized cue is canonical: lowering is idempotent and commutes
/// with trimming, and trimming is idempotent.
pub proof fn lemma_canon_fixed(c: Seq<char>)
    ensures
        cue_canon_spec(c).len() > 0 ==> cue_ok(cue_canon_spec(c)),
{
    let y = cue_canon_spec(c);
    let low = text::lower_seq(c);
    text::lemma_trim_front_props(low);
    text::lemma_trim_back_props(text::trim_front_spec(low));
    assert(text::lower_seq(y) =~= y) by {
        let f = text::trim_front_spec(low);
        let k = choose|k: int|
            0 <= k <= low.len() && f == low.subrange(k, low.len() as int) && (forall|j: int|
                0 <= j < k ==> text::is_space(low[j]));
        assert forall|i: int| 0 <= i < y.len() implies text::lower_char(y[i]) == y[i] by {
            assert(y[i] == f[i]);
            assert(f[i] == low[k + i]);
            assert(low[k + i] == text::lower_char(c[k + i]));
            lemma_lower_char_idem(c[k + i]);
        }
    }
    text::lemma_trim_idempotent(low);
}

/// Lowercasing one character twice is lowercasing it once.
proof fn lemma_lower_char_idem(c: char)
    ensures
        text::lower_char(text::lower_char(c)) == text::lower_char(c),
{
}

/// An element of a filtered sequence is an element of the sequence.
pub proof fn lemma_filter_elem(s: Seq<Seq<char>>, pred: spec_fn(Seq<char>) -> bool, x: Seq<char>)
    requires
        s.filter(pred).contains(x),
    ensures
        s.contains(x),
    decreases s.len(),
{
    reveal(Seq::filter);
    if s.len() > 0 {
        if pred(s.last()) && x == s.last() {
            assert(s[s.len() - 1] == x);
        } else {
            if s.drop_last().filter(pred).contains(x) {
                lemma_filter_elem(s.drop_last(), pred, x);
                let j = choose|j: int| 0 <= j < s.drop_last().len() && s.drop_last()[j] == x;
                assert(s[j] == x);
            } else {
                let k = choose|k: int|
                    0 <= k < s.filter(pred).len() && s.filter(pred)[k] == x;
                if pred(s.last()) {
                    assert(k < s.filter(pred).len() - 1);
                    assert(s.drop_last().filter(pred)[k] == x);
                } else {
                    assert(s.drop_last().filter(pred)[k] == x);
                }
                assert(false);
            }
        }
    }
}

/// Filtering keeps a duplicate-free sequence duplicate-free.
pub proof fn lemma_filter_nodup(s: Seq<Seq<char>>, pred: spec_fn(Seq<char>) -> bool)
    requires
        s.no_duplicates(),
    ensures
        s.filter(pred).no_duplicates(),
    decreases s.len(),
{
    reveal(Seq::filter);
    if s.len() > 0 {
        lemma_filter_nodup(s.drop_last(), pred);
        if pred(s.last()) {
            let f = s.drop_last().filter(pred);
            assert(!f.contains(s.last())) by {
                if f.contains(s.last()) {
                    lemma_filter_elem(s.drop_last(), pred, s.last());
                    let j = choose|j: int|
                        0 <= j < s.drop_last().len() && s.drop_last()[j] == s.last();
                    assert(s[j] == s[s.len() - 1]);
                }
            }
            assert forall|x: int, y: int| 0 <= x < y < s.filter(pred).len() implies s.filter(
                pred,
            )[x] != s.filter(pred)[y] by {
                if y < s.filter(pred).len() - 1 {
                    assert(f[x] != f[y]);
                } else {
                    assert(s.filter(pred)[y] == s.last());
                    assert(f[x] == s.filter(pred)[x]);
                    assert(f.contains(f[x]));
                }
            }
        }
    }
}

/// The ordered ids under a cue, or the empty sequence for an unknown cue.
pub open spec fn ids_of(sets: Map<Seq<char>, Seq<Seq<char>>>, c: Seq<char>) -> Seq<Seq<char>> {
    if sets.contains_key(c) {
        sets[c]
    } else {
        Seq::empty()
    }
}

/// The index after an id is appended under one cue (creating the entry
/// when absent; an id already present moves to the tail).
pub open spec fn set_after_add(
    sets: Map<Seq<char>, Seq<Seq<char>>>,
    c: Seq<char>,
    id: Seq<char>,
) -> Map<Seq<char>, Seq<Seq<char>>> {
    sets.insert(c, seq_reposition(ids_of(sets, c), id))
}

/// The index after an id is appended under each cue, in order.
pub open spec fn index_add_all(
    sets: Map<Seq<char>, Seq<Seq<char>>>,
    cues: Seq<Seq<char>>,
    id: Seq<char>,
) -> Map<Seq<char>, Seq<Seq<char>>>
    decreases cues.len(),
{
    if cues.len() == 0 {
        sets
    } else {
        index_add_all(set_after_add(sets, cues[0], id), cues.drop_first(), id)
    }
}

/// An ordered set after move-to-end: an id that is present moves to the
/// tail, anything else stays put.
pub open spec fn moved(s: Seq<Seq<char>>, id: Seq<char>) -> Seq<Seq<char>> {
    if s.contains(id) {
        seq_reposition(s, id)
    } else {
        s
    }
}

/// The index after a reinforcement touches one cue: the entry is created
/// empty when absent, and the id (when present) moves to the tail.
pub open spec fn set_after_move(
    sets: Map<Seq<char>, Seq<Seq<char>>>,
    c: Seq<char>,
    id: Seq<char>,
) -> Map<Seq<char>, Seq<Seq<char>>> {
    sets.insert(c, moved(ids_of(sets, c), id))
}

/// The index after a reinforcement touches each cue, in order.
pub open spec fn index_move_all(
    sets: Map<Seq<char>, Seq<Seq<char>>>,
    cues: Seq<Seq<char>>,
    id: Seq<char>,
) -> Map<Seq<char>, Seq<Seq<char>>>
    decreases cues.len(),
{
    if cues.len() == 0 {
        sets
    } else {
        index_move_all(set_after_move(sets, cues[0], id), cues.drop_first(), id)
    }
}

/// The index after an id is removed from one cue's set (an absent entry
/// stays absent).
pub open spec fn set_after_remove(
    sets: Map<Seq<char>, Seq<Seq<char>>>,
    c: Seq<char>,
    id: Seq<char>,
) -> Map<Seq<char>, Seq<Seq<char>>> {
    if sets.contains_key(c) {
        sets.insert(c, sets[c].remove_value(id))
    } else {
        sets
    }
}

/// The index after an id is removed from each cue's set, in order.
pub open spec fn index_remove_all(
    sets: Map<Seq<char>, Seq<Seq<char>>>,
    cues: Seq<Seq<char>>,
    id: Seq<char>,
) -> Map<Seq<char>, Seq<Seq<char>>>
    decreases cues.len(),
{
    if cues.len() == 0 {
        sets
    } else {
        index_remove_all(set_after_remove(sets, cues[0], id), cues.drop_first(), id)
    }
}

/// Membership and order after one reposition: the id lands at the tail,
/// everything else keeps its relative order and membership.
pub proof fn lemma_reposition_props(s: Seq<Seq<char>>, v: Seq<char>)
    requires
        s.no_duplicates(),
    ensures
        seq_reposition(s, v).no_duplicates(),
        forall|x: Seq<char>|
            #[trigger] seq_reposition(s, v).contains(x) <==> (x == v || s.contains(x)),
        seq_reposition(s, v).len() == if s.contains(v) {
            s.len()
        } else {
            s.len() + 1
        },
        seq_reposition(s, v).len() >= 1,
        seq_reposition(s, v).last() == v,
{
    lemma_remove_value(s, v);
    let t = s.remove_value(v);
    let r = t.push(v);
    assert forall|x: int, y: int| 0 <= x < y < r.len() implies r[x] != r[y] by {
        if y < r.len() - 1 {
            assert(t[x] != t[y]);
        } else {
            assert(r[y] == v && r[x] == t[x]);
        }
    }
    assert forall|x: Seq<char>| #[trigger] r.contains(x) implies (x == v || s.contains(x)) by {
        let j = choose|j: int| 0 <= j < r.len() && r[j] == x;
        if j < r.len() - 1 {
            assert(t.contains(x));
        }
    }
    assert forall|x: Seq<char>| x == v || s.contains(x) implies #[trigger] r.contains(x) by {
        if x == v {
            assert(r[r.len() - 1] == v);
        } else {
            assert(t.contains(x));
            let j = choose|j: int| 0 <= j < t.len() && t[j] == x;
            assert(r[j] == x);
        }
    }
}

/// What adding an id under a duplicate-free cue list does to the index,
/// pointwise: listed cues get the id repositioned to the tail, other
/// entries do not change.
pub proof fn lemma_index_add_all_props(
    sets: Map<Seq<char>, Seq<Seq<char>>>,
    cues: Seq<Seq<char>>,
    id: Seq<char>,
)
    requires
        cues.no_duplicates(),
    ensures
        forall|c: Seq<char>|
            #[trigger] index_add_all(sets, cues, id).contains_key(c) <==> (sets.contains_key(c)
                || cues.contains(c)),
        forall|c: Seq<char>|
            cues.contains(c) ==> #[trigger] index_add_all(sets, cues, id)[c] == seq_reposition(
                ids_of(sets, c),
                id,
            ),
        forall|c: Seq<char>|
            !cues.contains(c) && sets.contains_key(c) ==> #[trigger] index_add_all(
                sets,
                cues,
                id,
            )[c] == sets[c],
    decreases cues.len(),
{
    if cues.len() > 0 {
        let c0 = cues[0];
        let rest = cues.drop_first();
        let sets1 = set_after_add(sets, c0, id);
        assert(rest.no_duplicates());
        assert(!rest.contains(c0)) by {
            if rest.contains(c0) {
                let j = choose|j: int| 0 <= j < rest.len() && rest[j] == c0;
                assert(cues[j + 1] == c0);
            }
        }
        lemma_index_add_all_props(sets1, rest, id);
        assert(index_add_all(sets, cues, id) == index_add_all(sets1, rest, id));
        assert forall|c: Seq<char>| #[trigger] cues.contains(c) implies index_add_all(
            sets,
            cues,
            id,
        )[c] == seq_reposition(ids_of(sets, c), id) by {
            if c == c0 {
                assert(!rest.contains(c0));
                assert(sets1.contains_key(c0));
                assert(index_add_all(sets1, rest, id)[c0] == sets1[c0]);
                assert(sets1[c0] == seq_reposition(ids_of(sets, c0), id));
            } else {
                let j = choose|j: int| 0 <= j < cues.len() && cues[j] == c;
                assert(rest[j - 1] == c);
                assert(rest.contains(c));
                assert(ids_of(sets1, c) == ids_of(sets, c));
                assert(index_add_all(sets1, rest, id)[c] == seq_reposition(ids_of(sets1, c), id));
            }
        }
        assert forall|c: Seq<char>| !cues.contains(c) && sets.contains_key(c) implies
            #[trigger] index_add_all(sets, cues, id)[c] == sets[c] by {
            assert(c != c0) by {
                assert(cues[0] == c0);
            }
            assert(!rest.contains(c)) by {
                if rest.contains(c) {
                    let j = choose|j: int| 0 <= j < rest.len() && rest[j] == c;
                    assert(cues[j + 1] == c);
                }
            }
            assert(sets1[c] == sets[c]);
            assert(index_add_all(sets1, rest, id)[c] == sets1[c]);
        }
        assert forall|c: Seq<char>| #[trigger] index_add_all(sets, cues, id).contains_key(c)
            <==> (sets.contains_key(c) || cues.contains(c)) by {
            if cues.contains(c) || sets.contains_key(c) {
                if c == c0 {
                    assert(sets1.contains_key(c));
                } else if sets.contains_key(c) {
                    assert(sets1.contains_key(c));
                } else {
                    let j = choose|j: int| 0 <= j < cues.len() && cues[j] == c;
                    assert(rest[j - 1] == c);
                    assert(rest.contains(c));
                }
            }
            if index_add_all(sets, cues, id).contains_key(c) {
                if !sets1.contains_key(c) {
                    assert(rest.contains(c));
                    let j = choose|j: int| 0 <= j < rest.len() && rest[j] == c;
                    assert(cues[j + 1] == c);
                } else {
                    if c != c0 && !sets.contains_key(c) {
                        assert(false);
                    }
                    if c == c0 {
                        assert(cues.contains(c)) by {
                            assert(cues[0] == c0);
                        }
                    }
                }
            }
        }
    }
}

/// What a reinforcement under a duplicate-free cue list does to the
/// index, pointwise.
pub proof fn lemma_index_move_all_props(
    sets: Map<Seq<char>, Seq<Seq<char>>>,
    cues: Seq<Seq<char>>,
    id: Seq<char>,
)
    requires
        cues.no_duplicates(),
    ensures
        forall|c: Seq<char>|
            #[trigger] index_move_all(sets, cues, id).contains_key(c) <==> (sets.contains_key(c)
                || cues.contains(c)),
        forall|c: Seq<char>|
            cues.contains(c) ==> #[trigger] index_move_all(sets, cues, id)[c] == moved(
                ids_of(sets, c),
                id,
            ),
        forall|c: Seq<char>|
            !cues.contains(c) && sets.contains_key(c) ==> #[trigger] index_move_all(
                sets,
                cues,
                id,
            )[c] == sets[c],
    decreases cues.len(),
{
    if cues.len() > 0 {
        let c0 = cues[0];
        let rest = cues.drop_first();
        let sets1 = set_after_move(sets, c0, id);
        assert(rest.no_duplicates());
        assert(!rest.contains(c0)) by {
            if rest.contains(c0) {
                let j = choose|j: int| 0 <= j < rest.len() && rest[j] == c0;
                assert(cues[j + 1] == c0);
            }
        }
        lemma_index_move_all_props(sets1, rest, id);
        assert(index_move_all(sets, cues, id) == index_move_all(sets1, rest, id));
        assert forall|c: Seq<char>| #[trigger] cues.contains(c) implies index_move_all(
            sets,
            cues,
            id,
        )[c] == moved(ids_of(sets, c), id) by {
            if c == c0 {
                assert(sets1.contains_key(c0));
                assert(index_move_all(sets1, rest, id)[c0] == sets1[c0]);
                assert(sets1[c0] == moved(ids_of(sets, c0), id));
            } else {
                let j = choose|j: int| 0 <= j < cues.len() && cues[j] == c;
                assert(rest[j - 1] == c);
                assert(rest.contains(c));
                assert(ids_of(sets1, c) == ids_of(sets, c));
                assert(index_move_all(sets1, rest, id)[c] == moved(ids_of(sets1, c), id));
            }
        }
        assert forall|c: Seq<char>| !cues.contains(c) && sets.contains_key(c) implies
            #[trigger] index_move_all(sets, cues, id)[c] == sets[c] by {
            assert(c != c0) by {
                assert(cues[0] == c0);
            }
            assert(!rest.contains(c)) by {
                if rest.contains(c) {
                    let j = choose|j: int| 0 <= j < rest.len() && rest[j] == c;
                    assert(cues[j + 1] == c);
                }
            }
            assert(sets1[c] == sets[c]);
            assert(index_move_all(sets1, rest, id)[c] == sets1[c]);
        }
        assert forall|c: Seq<char>| #[trigger] index_move_all(sets, cues, id).contains_key(c)
            <==> (sets.contains_key(c) || cues.contains(c)) by {
            if cues.contains(c) || sets.contains_key(c) {
                if c == c0 || sets.contains_key(c) {
                    assert(sets1.contains_key(c));
                } else {
                    let j = choose|j: int| 0 <= j < cues.len() && cues[j] == c;
                    assert(rest[j - 1] == c);
                    assert(rest.contains(c));
                }
            }
            if index_move_all(sets, cues, id).contains_key(c) {
                if !sets1.contains_key(c) {
                    assert(rest.contains(c));
                    let j = choose|j: int| 0 <= j < rest.len() && rest[j] == c;
                    assert(cues[j + 1] == c);
                } else if c == c0 {
                    assert(cues.contains(c)) by {
                        assert(cues[0] == c0);
                    }
                }
            }
        }
    }
}

/// What deleting an id under a duplicate-free cue list does to the index,
/// pointwise.
pub proof fn lemma_index_remove_all_props(
    sets: Map<Seq<char>, Seq<Seq<char>>>,
    cues: Seq<Seq<char>>,
    id: Seq<char>,
)
    requires
        cues.no_duplicates(),
    ensures
        forall|c: Seq<char>|
            #[trigger] index_remove_all(sets, cues, id).contains_key(c) <==> sets.contains_key(
                c,
            ),
        forall|c: Seq<char>|
            cues.contains(c) && sets.contains_key(c) ==> #[trigger] index_remove_all(
                sets,
                cues,
                id,
            )[c] == sets[c].remove_value(id),
        forall|c: Seq<char>|
            !cues.contains(c) && sets.contains_key(c) ==> #[trigger] index_remove_all(
                sets,
                cues,
                id,
            )[c] == sets[c],
    decreases cues.len(),
{
    if cues.len() > 0 {
        let c0 = cues[0];
        let rest = cues.drop_first();
        let sets1 = set_after_remove(sets, c0, id);
        assert(rest.no_duplicates());
        assert(!rest.contains(c0)) by {
            if rest.contains(c0) {
                let j = choose|j: int| 0 <= j < rest.len() && rest[j] == c0;
                assert(cues[j + 1] == c0);
            }
        }
        lemma_index_remove_all_props(sets1, rest, id);
        assert(index_remove_all(sets, cues, id) == index_remove_all(sets1, rest, id));
        assert forall|c: Seq<char>| #[trigger] cues.contains(c) && sets.contains_key(c) implies
            index_remove_all(sets, cues, id)[c] == sets[c].remove_value(id) by {
            if c == c0 {
                assert(sets1.contains_key(c0));
                assert(index_remove_all(sets1, rest, id)[c0] == sets1[c0]);
                assert(sets1[c0] == sets[c0].remove_value(id));
            } else {
                let j = choose|j: int| 0 <= j < cues.len() && cues[j] == c;
                assert(rest[j - 1] == c);
                assert(rest.contains(c));
                assert(sets1.contains_key(c) && sets1[c] == sets[c]);
                assert(index_remove_all(sets1, rest, id)[c] == sets1[c].remove_value(id));
            }
        }
        assert forall|c: Seq<char>| !cues.contains(c) && sets.contains_key(c) implies
            #[trigger] index_remove_all(sets, cues, id)[c] == sets[c] by {
            assert(c != c0) by {
                assert(cues[0] == c0);
            }
            assert(!rest.contains(c)) by {
                if rest.contains(c) {
                    let j = choose|j: int| 0 <= j < rest.len() && rest[j] == c;
                    assert(cues[j + 1] == c);
                }
            }
            assert(sets1.contains_key(c) && sets1[c] == sets[c]);
            assert(index_remove_all(sets1, rest, id)[c] == sets1[c]);
        }
    }
}

} // verus!

verus! {

/// Counts and the list of known cues.
pub struct EngineStats {
    pub total_memories: usize,
    pub total_cues: usize,
    pub cues: Vec<String>,
}

/// The engine: the memory store and the cue index, both concurrent maps.
pub struct CueMapEngine {
    memories: dashmap::DashMap<String, Memory>,
    cue_index: dashmap::DashMap<String, OrderedSet>,
}

impl CueMapEngine {
    /// The stored memories, by id.
    pub closed spec fn mems(&self) -> Map<Seq<char>, MemView> {
        ext::mem_entries(self.memories)
    }

    /// The cue index: for each cue, the ordered ids (tail most recent).
    pub closed spec fn sets(&self) -> Map<Seq<char>, Seq<Seq<char>>> {
        ext::set_entries(self.cue_index)
    }

    /// Index consistency. Every memory records its own id and canonical,
    /// duplicate-free cues; every cue set is duplicate-free; a memory id
    /// appears in exactly the sets of the cues it carries.
    pub open spec fn wf(&self) -> bool {
        wf_maps(self.mems(), self.sets())
    }

    /// A fresh, empty engine.
    pub fn new() -> (r: Self)
        ensures
            r.wf(),
            r.mems() == ext::empty_mem_map(),
            r.sets() == ext::empty_set_map(),
    {
        CueMapEngine { memories: ext::dmm_new(), cue_index: ext::dms_new() }
    }

    /// One cue in canonical form: ASCII-lowercased and trimmed.
    fn canon_one(cue: &str) -> (r: Vec<char>)
        ensures
            r@ == cue_canon_spec(cue@),
    {
        let raw = text::to_chars(cue);
        let lowered = text::lower_chars(&raw);
        text::trim_chars(&lowered)
    }

    /// The canonical cue list of a raw input: canonicalized, empties and
    /// repeats dropped. Every survivor is a canonical cue.
    fn canon_list(cues: &Vec<String>) -> (r: Vec<String>)
        ensures
            r@.map_values(|s: String| s@) == canon_cues_spec(cues@.map_values(|s: String| s@)),
            r@.map_values(|s: String| s@).no_duplicates(),
            forall|j: int| 0 <= j < r@.len() ==> cue_ok((#[trigger] r@[j])@),
    {
        let ghost cv = cues@.map_values(|s: String| s@);
        let ghost canon_map = |c: Seq<char>| cue_canon_spec(c);
        let ghost nonempty = |c: Seq<char>| c.len() > 0;
        let mut out: Vec<String> = Vec::new();
        let mut chars_out: Vec<Vec<char>> = Vec::new();
        let mut i: usize = 0;
        proof {
            reveal(Seq::filter);
            assert(cv.take(0).map_values(canon_map).filter(nonempty) =~= Seq::<Seq<char>>::empty());
            assert(canon_cues_spec(cv.take(0)) =~= Seq::<Seq<char>>::empty());
        }
        while i < cues.len()
            invariant
                i <= cues@.len(),
                cv == cues@.map_values(|s: String| s@),
                canon_map == (|c: Seq<char>| cue_canon_spec(c)),
                nonempty == (|c: Seq<char>| c.len() > 0),
                out@.len() == chars_out@.len(),
                forall|j: int| 0 <= j < out@.len() ==> out@[j]@ == chars_out@[j]@,
                chars_out@.map_values(|v: Vec<char>| v@) == dedup(
                    cv.take(i as int).map_values(canon_map).filter(nonempty),
                ),
            decreases cues@.len() - i,
        {
            let c = Self::canon_one(cues[i].as_str());
            let ghost pref = cv.take(i as int).map_values(canon_map).filter(nonempty);
            proof {
                reveal(Seq::filter);
                assert(cv.take(i + 1).map_values(canon_map).drop_last() =~= cv.take(
                    i as int,
                ).map_values(canon_map));
                assert(cv.take(i + 1).map_values(canon_map).last() == cue_canon_spec(
                    cv[i as int],
                ));
                lemma_dedup_props(pref);
            }
            if c.len() > 0 {
                let mut j: usize = 0;
                while j < chars_out.len() && !text::eq_chars(&chars_out[j], &c)
                    invariant
                        j <= chars_out@.len(),
                        forall|t: int| 0 <= t < j ==> chars_out@[t]@ != c@,
                    decreases chars_out@.len() - j,
                {
                    j = j + 1;
                }
                let dup = j < chars_out.len();
                proof {
                    let co = chars_out@.map_values(|v: Vec<char>| v@);
                    if dup {
                        assert(chars_out@[j as int]@ == c@);
                        assert(co[j as int] == c@);
                        assert(co.contains(c@));
                    } else {
                        assert forall|t: int| 0 <= t < co.len() implies co[t] != c@ by {
                            assert(co[t] == chars_out@[t]@);
                        }
                        assert(!co.contains(c@));
                    }
                }
                if !dup {
                    out.push(text::to_string(&c));
                    chars_out.push(c);
                }
            }
            proof {
                reveal(Seq::filter);
                assert(c@ == cue_canon_spec(cv[i as int]));
                let next = cv.take(i + 1).map_values(canon_map).filter(nonempty);
                if cue_canon_spec(cv[i as int]).len() > 0 {
                    assert(next =~= pref.push(cue_canon_spec(cv[i as int])));
                    assert(next.drop_last() =~= pref);
                    assert(next.last() == c@);
                } else {
                    assert(next =~= pref);
                }
                assert(chars_out@.map_values(|v: Vec<char>| v@) =~= dedup(next));
            }
            i = i + 1;
        }
        proof {
            assert(cv.take(cues@.len() as int) =~= cv);
            let rv = out@.map_values(|s: String| s@);
            assert(rv =~= chars_out@.map_values(|v: Vec<char>| v@));
            lemma_dedup_props(cv.map_values(canon_map).filter(nonempty));
            let fv = cv.map_values(canon_map).filter(nonempty);
            assert(cv.take(cues@.len() as int).map_values(canon_map) =~= cv.map_values(
                canon_map,
            ));
            assert(rv == dedup(fv));
            assert forall|j: int| 0 <= j < out@.len() implies cue_ok((#[trigger] out@[j])@) by {
                assert(out@[j]@ == rv[j]);
                assert(dedup(fv)[j] == rv[j]);
                assert(dedup(fv).contains(rv[j]));
                assert(fv.contains(rv[j]));
                let t = choose|t: int| 0 <= t < fv.len() && fv[t] == rv[j];
                Seq::lemma_filter_pred(cv.map_values(canon_map), nonempty, t);
                lemma_filter_elem(cv.map_values(canon_map), nonempty, rv[j]);
                let u = choose|u: int|
                    0 <= u < cv.map_values(canon_map).len() && cv.map_values(canon_map)[u]
                        == rv[j];
                lemma_canon_fixed(cv[u]);
            }
        }
        out
    }

    /// Append the id at the tail of each listed cue's set, creating the
    /// set when needed.
    fn index_add(&mut self, cues: &Vec<String>, id: &str)
        requires
            forall|c: Seq<char>|
                old(self).sets().contains_key(c)
                    ==> (#[trigger] old(self).sets()[c]).no_duplicates(),
        ensures
            final(self).sets() == index_add_all(
                old(self).sets(),
                cues@.map_values(|s: String| s@),
                id@,
            ),
            final(self).mems() == old(self).mems(),
            forall|c: Seq<char>|
                final(self).sets().contains_key(c)
                    ==> (#[trigger] final(self).sets()[c]).no_duplicates(),
    {
        let ghost cv = cues@.map_values(|s: String| s@);
        let ghost sets0 = self.sets();
        let mut i: usize = 0;
        proof {
            assert(cv.skip(0) =~= cv);
        }
        while i < cues.len()
            invariant
                i <= cues@.len(),
                cv == cues@.map_values(|s: String| s@),
                index_add_all(sets0, cv, id@) == index_add_all(
                    self.sets(),
                    cv.skip(i as int),
                    id@,
                ),
                self.mems() == old(self).mems(),
                forall|c: Seq<char>|
                    self.sets().contains_key(c) ==> (#[trigger] self.sets()[c]).no_duplicates(),
            decreases cues@.len() - i,
        {
            let cue = &cues[i];
            let ghost prev_sets = self.sets();
            let mut os = match ext::dms_remove(&mut self.cue_index, cue.as_str()) {
                Some(os) => os,
                None => OrderedSet::new(),
            };
            proof {
                assert(cue@ == cv[i as int]);
                assert(os.elems() == ids_of(prev_sets, cue@));
                assert(os.elems().no_duplicates());
                assert(os.wf());
                lemma_reposition_props(ids_of(prev_sets, cue@), id@);
            }
            os.add(id.to_owned());
            ext::dms_insert(&mut self.cue_index, cue.clone(), os);
            proof {
                assert(self.sets() =~= set_after_add(prev_sets, cv[i as int], id@));
                assert(cv.skip(i as int)[0] == cv[i as int]);
                assert(cv.skip(i as int).drop_first() =~= cv.skip(i + 1));
                assert(index_add_all(prev_sets, cv.skip(i as int), id@) == index_add_all(
                    self.sets(),
                    cv.skip(i + 1),
                    id@,
                ));
            }
            i = i + 1;
        }
        proof {
            assert(cv.skip(cues@.len() as int).len() == 0);
        }
    }
}

} // verus!

verus! {

/// Index consistency over bare maps (the engine's invariant).
pub open spec fn wf_maps(
    mems: Map<Seq<char>, MemView>,
    sets: Map<Seq<char>, Seq<Seq<char>>>,
) -> bool {
    &&& forall|id: Seq<char>|
        #[trigger] mems.contains_key(id) ==> {
            let m = mems[id];
            &&& m.id == id
            &&& m.created_at <= m.last_accessed
            &&& m.cues.no_duplicates()
            &&& forall|j: int| 0 <= j < m.cues.len() ==> cue_ok(#[trigger] m.cues[j])
        }
    &&& forall|c: Seq<char>| #[trigger] sets.contains_key(c) ==> sets[c].no_duplicates()
    &&& forall|id: Seq<char>, c: Seq<char>|
        mems.contains_key(id) && #[trigger] mems[id].cues.contains(c) ==> sets.contains_key(c)
            && sets[c].contains(id)
    &&& forall|c: Seq<char>, id: Seq<char>|
        sets.contains_key(c) && #[trigger] sets[c].contains(id) ==> mems.contains_key(id)
            && mems[id].cues.contains(c)
}

/// A fresh memory's view.
pub open spec fn fresh_view(
    id: Seq<char>,
    content: Seq<char>,
    cues: Seq<Seq<char>>,
    metadata: Seq<(Seq<char>, Seq<char>)>,
    now: u64,
) -> MemView {
    MemView {
        id: id,
        content: content,
        created_at: now,
        last_accessed: now,
        reinforcement_count: 0,
        cues: cues,
        metadata: metadata,
    }
}

/// A memory's view after new cues are attached.
pub open spec fn mem_after_attach(m: MemView, diff: Seq<Seq<char>>) -> MemView {
    MemView { cues: m.cues + diff, ..m }
}

/// A memory's view after a reinforcement: the access stamp moves forward
/// and the counter goes up (saturating).
pub open spec fn mem_after_touch(m: MemView, now: u64) -> MemView {
    MemView {
        last_accessed: if now > m.last_accessed {
            now
        } else {
            m.last_accessed
        },
        reinforcement_count: if m.reinforcement_count < u64::MAX {
            (m.reinforcement_count + 1) as u64
        } else {
            m.reinforcement_count
        },
        ..m
    }
}

/// The new cues an attach brings: the canonical input cues the memory
/// does not already carry.
pub open spec fn attach_diff(m: MemView, cues_in: Seq<Seq<char>>) -> Seq<Seq<char>> {
    canon_cues_spec(cues_in).filter(|c: Seq<char>| !m.cues.contains(c))
}

/// Inserting a fresh memory and indexing its cues keeps the invariant.
pub proof fn lemma_wf_insert_fresh(
    mems: Map<Seq<char>, MemView>,
    sets: Map<Seq<char>, Seq<Seq<char>>>,
    id: Seq<char>,
    mv: MemView,
)
    requires
        wf_maps(mems, sets),
        !mems.contains_key(id),
        mv.id == id,
        mv.created_at <= mv.last_accessed,
        mv.cues.no_duplicates(),
        forall|j: int| 0 <= j < mv.cues.len() ==> cue_ok(#[trigger] mv.cues[j]),
    ensures
        wf_maps(mems.insert(id, mv), index_add_all(sets, mv.cues, id)),
{
    let mems2 = mems.insert(id, mv);
    let sets2 = index_add_all(sets, mv.cues, id);
    lemma_index_add_all_props(sets, mv.cues, id);
    assert forall|c: Seq<char>| #[trigger] sets2.contains_key(c) implies
        sets2[c].no_duplicates() by {
        if mv.cues.contains(c) {
            lemma_reposition_props(ids_of(sets, c), id);
        }
    }
    assert forall|x: Seq<char>, c: Seq<char>|
        mems2.contains_key(x) && #[trigger] mems2[x].cues.contains(c) implies
        sets2.contains_key(c) && sets2[c].contains(x) by {
        if x == id {
            lemma_reposition_props(ids_of(sets, c), id);
        } else {
            assert(mems.contains_key(x) && mems[x].cues.contains(c));
            assert(sets.contains_key(c) && sets[c].contains(x));
            if mv.cues.contains(c) {
                lemma_reposition_props(ids_of(sets, c), id);
            }
        }
    }
    assert forall|c: Seq<char>, x: Seq<char>|
        sets2.contains_key(c) && #[trigger] sets2[c].contains(x) implies mems2.contains_key(x)
            && mems2[x].cues.contains(c) by {
        if mv.cues.contains(c) {
            lemma_reposition_props(ids_of(sets, c), id);
            if x != id {
                assert(ids_of(sets, c).contains(x));
                assert(sets.contains_key(c) && sets[c].contains(x));
            }
        } else {
            assert(sets.contains_key(c) && sets[c].contains(x));
            assert(x != id);
        }
    }
}

/// Attaching new cues to a stored memory keeps the invariant.
pub proof fn lemma_wf_attach(
    mems: Map<Seq<char>, MemView>,
    sets: Map<Seq<char>, Seq<Seq<char>>>,
    id: Seq<char>,
    diff: Seq<Seq<char>>,
    mv2: MemView,
)
    requires
        wf_maps(mems, sets),
        mems.contains_key(id),
        diff.no_duplicates(),
        forall|j: int| 0 <= j < diff.len() ==> cue_ok(#[trigger] diff[j]),
        forall|c: Seq<char>| #[trigger] diff.contains(c) ==> !mems[id].cues.contains(c),
        mv2.id == id,
        mv2.created_at <= mv2.last_accessed,
        mv2.cues == mems[id].cues + diff,
    ensures
        wf_maps(mems.insert(id, mv2), index_add_all(sets, diff, id)),
{
    let mems2 = mems.insert(id, mv2);
    let sets2 = index_add_all(sets, diff, id);
    lemma_index_add_all_props(sets, diff, id);
    let old_cues = mems[id].cues;
    assert(mv2.cues.no_duplicates()) by {
        assert forall|x: int, y: int| 0 <= x < y < mv2.cues.len() implies mv2.cues[x]
            != mv2.cues[y] by {
            if x < old_cues.len() && y >= old_cues.len() {
                assert(diff.contains(diff[y - old_cues.len()]));
                assert(old_cues.contains(old_cues[x]));
            }
        }
    }
    assert forall|j: int| 0 <= j < mv2.cues.len() implies cue_ok(#[trigger] mv2.cues[j]) by {
        if j < old_cues.len() {
            assert(cue_ok(old_cues[j]));
        } else {
            assert(cue_ok(diff[j - old_cues.len()]));
        }
    }
    assert forall|c: Seq<char>| #[trigger] sets2.contains_key(c) implies
        sets2[c].no_duplicates() by {
        if diff.contains(c) {
            lemma_reposition_props(ids_of(sets, c), id);
        }
    }
    assert forall|x: Seq<char>, c: Seq<char>|
        mems2.contains_key(x) && #[trigger] mems2[x].cues.contains(c) implies
        sets2.contains_key(c) && sets2[c].contains(x) by {
        if x == id {
            let j = choose|j: int| 0 <= j < mv2.cues.len() && mv2.cues[j] == c;
            if j < old_cues.len() {
                assert(old_cues.contains(c)) by {
                    assert(old_cues[j] == c);
                }
                assert(mems[id].cues.contains(c));
                assert(sets.contains_key(c) && sets[c].contains(id));
                if diff.contains(c) {
                    lemma_reposition_props(ids_of(sets, c), id);
                }
            } else {
                assert(diff.contains(c)) by {
                    assert(diff[j - old_cues.len()] == c);
                }
                lemma_reposition_props(ids_of(sets, c), id);
            }
        } else {
            assert(mems.contains_key(x) && mems[x].cues.contains(c));
            assert(sets.contains_key(c) && sets[c].contains(x));
            if diff.contains(c) {
                lemma_reposition_props(ids_of(sets, c), id);
            }
        }
    }
    assert forall|c: Seq<char>, x: Seq<char>|
        sets2.contains_key(c) && #[trigger] sets2[c].contains(x) implies mems2.contains_key(x)
            && mems2[x].cues.contains(c) by {
        if diff.contains(c) {
            lemma_reposition_props(ids_of(sets, c), id);
            if x == id {
                assert(mv2.cues[old_cues.len() + diff.index_of(c)] == c || true);
                let j = choose|j: int| 0 <= j < diff.len() && diff[j] == c;
                assert(mv2.cues[old_cues.len() + j] == c);
                assert(mv2.cues.contains(c));
            } else {
                assert(ids_of(sets, c).contains(x));
                assert(sets.contains_key(c) && sets[c].contains(x));
                assert(mems[x].cues.contains(c));
                if x == id {
                } else {
                    assert(mems2[x].cues.contains(c));
                }
            }
        } else {
            assert(sets.contains_key(c) && sets[c].contains(x));
            assert(mems[x].cues.contains(c));
            if x == id {
                let j = choose|j: int| 0 <= j < old_cues.len() && old_cues[j] == c;
                assert(mv2.cues[j] == c);
                assert(mv2.cues.contains(c));
            }
        }
    }
}

/// A reinforcement (move-to-end on listed cues, new empty entries for
/// unknown cues) keeps the invariant.
pub proof fn lemma_wf_reinforce(
    mems: Map<Seq<char>, MemView>,
    sets: Map<Seq<char>, Seq<Seq<char>>>,
    id: Seq<char>,
    cues: Seq<Seq<char>>,
    mv2: MemView,
)
    requires
        wf_maps(mems, sets),
        mems.contains_key(id),
        cues.no_duplicates(),
        mv2.id == id,
        mv2.created_at <= mv2.last_accessed,
        mv2.cues == mems[id].cues,
    ensures
        wf_maps(mems.insert(id, mv2), index_move_all(sets, cues, id)),
{
    let mems2 = mems.insert(id, mv2);
    let sets2 = index_move_all(sets, cues, id);
    lemma_index_move_all_props(sets, cues, id);
    assert forall|c: Seq<char>| #[trigger] sets2.contains_key(c) implies
        sets2[c].no_duplicates() by {
        if cues.contains(c) {
            if ids_of(sets, c).contains(id) {
                lemma_reposition_props(ids_of(sets, c), id);
            }
        }
    }
    assert forall|x: Seq<char>, c: Seq<char>|
        mems2.contains_key(x) && #[trigger] mems2[x].cues.contains(c) implies
        sets2.contains_key(c) && sets2[c].contains(x) by {
        assert(mems.contains_key(x) && mems[x].cues.contains(c));
        assert(sets.contains_key(c) && sets[c].contains(x));
        if cues.contains(c) && ids_of(sets, c).contains(id) {
            lemma_reposition_props(ids_of(sets, c), id);
        }
    }
    assert forall|c: Seq<char>, x: Seq<char>|
        sets2.contains_key(c) && #[trigger] sets2[c].contains(x) implies mems2.contains_key(x)
            && mems2[x].cues.contains(c) by {
        if cues.contains(c) {
            if ids_of(sets, c).contains(id) {
                lemma_reposition_props(ids_of(sets, c), id);
                assert(ids_of(sets, c).contains(x));
            } else {
                assert(sets2[c] == ids_of(sets, c));
                assert(ids_of(sets, c).contains(x));
            }
            assert(sets.contains_key(c) && sets[c].contains(x));
        } else {
            assert(sets.contains_key(c) && sets[c].contains(x));
        }
        assert(mems[x].cues.contains(c));
    }
}

/// Deleting a memory and clearing its id from its cues' sets keeps the
/// invariant.
pub proof fn lemma_wf_delete(
    mems: Map<Seq<char>, MemView>,
    sets: Map<Seq<char>, Seq<Seq<char>>>,
    id: Seq<char>,
)
    requires
        wf_maps(mems, sets),
        mems.contains_key(id),
    ensures
        wf_maps(mems.remove(id), index_remove_all(sets, mems[id].cues, id)),
{
    let cues = mems[id].cues;
    let mems2 = mems.remove(id);
    let sets2 = index_remove_all(sets, cues, id);
    lemma_index_remove_all_props(sets, cues, id);
    assert forall|c: Seq<char>| #[trigger] sets2.contains_key(c) implies
        sets2[c].no_duplicates() by {
        if cues.contains(c) {
            lemma_remove_value(sets[c], id);
        }
    }
    assert forall|x: Seq<char>, c: Seq<char>|
        mems2.contains_key(x) && #[trigger] mems2[x].cues.contains(c) implies
        sets2.contains_key(c) && sets2[c].contains(x) by {
        assert(x != id);
        assert(mems.contains_key(x) && mems[x].cues.contains(c));
        assert(sets.contains_key(c) && sets[c].contains(x));
        if cues.contains(c) {
            lemma_remove_value(sets[c], id);
        }
    }
    assert forall|c: Seq<char>, x: Seq<char>|
        sets2.contains_key(c) && #[trigger] sets2[c].contains(x) implies mems2.contains_key(x)
            && mems2[x].cues.contains(c) by {
        if cues.contains(c) {
            lemma_remove_value(sets[c], id);
            assert(x != id);
            assert(sets[c].contains(x));
        } else {
            assert(sets.contains_key(c) && sets[c].contains(x));
            assert(mems.contains_key(x) && mems[x].cues.contains(c));
            assert(x != id) by {
                if x == id {
                    assert(cues.contains(c));
                }
            }
        }
    }
}

} // verus!

verus! {

impl CueMapEngine {
    /// Move the id to the tail of each listed cue's set; an unknown cue
    /// gets an empty entry, and a cue not holding the id is unchanged.
    fn index_move(&mut self, cues: &Vec<String>, id: &str)
        requires
            forall|c: Seq<char>|
                old(self).sets().contains_key(c)
                    ==> (#[trigger] old(self).sets()[c]).no_duplicates(),
        ensures
            final(self).sets() == index_move_all(
                old(self).sets(),
                cues@.map_values(|s: String| s@),
                id@,
            ),
            final(self).mems() == old(self).mems(),
            forall|c: Seq<char>|
                final(self).sets().contains_key(c)
                    ==> (#[trigger] final(self).sets()[c]).no_duplicates(),
    {
        let ghost cv = cues@.map_values(|s: String| s@);
        let ghost sets0 = self.sets();
        let mut i: usize = 0;
        proof {
            assert(cv.skip(0) =~= cv);
        }
        while i < cues.len()
            invariant
                i <= cues@.len(),
                cv == cues@.map_values(|s: String| s@),
                index_move_all(sets0, cv, id@) == index_move_all(
                    self.sets(),
                    cv.skip(i as int),
                    id@,
                ),
                self.mems() == old(self).mems(),
                forall|c: Seq<char>|
                    self.sets().contains_key(c) ==> (#[trigger] self.sets()[c]).no_duplicates(),
            decreases cues@.len() - i,
        {
            let cue = &cues[i];
            let ghost prev_sets = self.sets();
            let mut os = match ext::dms_remove(&mut self.cue_index, cue.as_str()) {
                Some(os) => os,
                None => OrderedSet::new(),
            };
            proof {
                assert(cue@ == cv[i as int]);
                assert(os.elems() == ids_of(prev_sets, cue@));
                assert(os.wf());
                if os.elems().contains(id@) {
                    lemma_reposition_props(ids_of(prev_sets, cue@), id@);
                }
            }
            os.move_to_end(id);
            ext::dms_insert(&mut self.cue_index, cue.clone(), os);
            proof {
                assert(self.sets() =~= set_after_move(prev_sets, cv[i as int], id@));
                assert(cv.skip(i as int)[0] == cv[i as int]);
                assert(cv.skip(i as int).drop_first() =~= cv.skip(i + 1));
                assert(index_move_all(prev_sets, cv.skip(i as int), id@) == index_move_all(
                    self.sets(),
                    cv.skip(i + 1),
                    id@,
                ));
            }
            i = i + 1;
        }
        proof {
            assert(cv.skip(cues@.len() as int).len() == 0);
        }
    }

    /// Remove the id from each listed cue's set (unknown cues stay
    /// absent; empty sets stay as entries).
    fn index_remove(&mut self, cues: &Vec<String>, id: &str)
        requires
            forall|c: Seq<char>|
                old(self).sets().contains_key(c)
                    ==> (#[trigger] old(self).sets()[c]).no_duplicates(),
        ensures
            final(self).sets() == index_remove_all(
                old(self).sets(),
                cues@.map_values(|s: String| s@),
                id@,
            ),
            final(self).mems() == old(self).mems(),
            forall|c: Seq<char>|
                final(self).sets().contains_key(c)
                    ==> (#[trigger] final(self).sets()[c]).no_duplicates(),
    {
        let ghost cv = cues@.map_values(|s: String| s@);
        let ghost sets0 = self.sets();
        let mut i: usize = 0;
        proof {
            assert(cv.skip(0) =~= cv);
        }
        while i < cues.len()
            invariant
                i <= cues@.len(),
                cv == cues@.map_values(|s: String| s@),
                index_remove_all(sets0, cv, id@) == index_remove_all(
                    self.sets(),
                    cv.skip(i as int),
                    id@,
                ),
                self.mems() == old(self).mems(),
                forall|c: Seq<char>|
                    self.sets().contains_key(c) ==> (#[trigger] self.sets()[c]).no_duplicates(),
            decreases cues@.len() - i,
        {
            let cue = &cues[i];
            let ghost prev_sets = self.sets();
            match ext::dms_remove(&mut self.cue_index, cue.as_str()) {
                Some(mut os) => {
                    proof {
                        assert(cue@ == cv[i as int]);
                        assert(os.elems() == ids_of(prev_sets, cue@));
                        assert(os.wf());
                        lemma_remove_value(os.elems(), id@);
                    }
                    os.remove(id);
                    ext::dms_insert(&mut self.cue_index, cue.clone(), os);
                    proof {
                        assert(self.sets() =~= set_after_remove(prev_sets, cv[i as int], id@));
                    }
                },
                None => {
                    proof {
                        assert(cue@ == cv[i as int]);
                        assert(self.sets() =~= prev_sets.remove(cue@));
                        assert(self.sets() =~= set_after_remove(prev_sets, cv[i as int], id@));
                    }
                },
            }
            proof {
                assert(cv.skip(i as int)[0] == cv[i as int]);
                assert(cv.skip(i as int).drop_first() =~= cv.skip(i + 1));
                assert(index_remove_all(prev_sets, cv.skip(i as int), id@) == index_remove_all(
                    self.sets(),
                    cv.skip(i + 1),
                    id@,
                ));
            }
            i = i + 1;
        }
        proof {
            assert(cv.skip(cues@.len() as int).len() == 0);
        }
    }

    /// Attach new cues to a stored memory: the set-difference of the
    /// canonical input against the memory's cues is added to the memory
    /// and indexed. `false` when the id is absent or nothing was new.
    pub fn attach_cues(&mut self, memory_id: &str, cues: Vec<String>) -> (r: bool)
        requires
            old(self).wf(),
        ensures
            final(self).wf(),
            !old(self).mems().contains_key(memory_id@) ==> !r && final(self).mems() == old(
                self,
            ).mems() && final(self).sets() == old(self).sets(),
            old(self).mems().contains_key(memory_id@) ==> {
                let diff = attach_diff(
                    old(self).mems()[memory_id@],
                    cues@.map_values(|s: String| s@),
                );
                &&& r == (diff.len() > 0)
                &&& final(self).mems() == old(self).mems().insert(
                    memory_id@,
                    mem_after_attach(old(self).mems()[memory_id@], diff),
                )
                &&& final(self).sets() == index_add_all(old(self).sets(), diff, memory_id@)
            },
    {
        let mut mem = match ext::dmm_remove(&mut self.memories, memory_id) {
            Some(m) => m,
            None => {
                proof {
                    assert(self.mems() =~= old(self).mems().remove(memory_id@));
                    assert(self.mems() =~= old(self).mems());
                }
                return false;
            },
        };
        let ghost mems0 = old(self).mems();
        let ghost sets0 = old(self).sets();
        let ghost mv = mems0[memory_id@];
        let canon = Self::canon_list(&cues);
        let ghost canon_v = canon@.map_values(|s: String| s@);
        let ghost diff_pred = |c: Seq<char>| !mv.cues.contains(c);
        let mut fresh: Vec<String> = Vec::new();
        let mut i: usize = 0;
        proof {
            reveal(Seq::filter);
            assert(canon_v.take(0).filter(diff_pred) =~= Seq::<Seq<char>>::empty());
        }
        while i < canon.len()
            invariant
                i <= canon@.len(),
                canon_v == canon@.map_values(|s: String| s@),
                diff_pred == (|c: Seq<char>| !mv.cues.contains(c)),
                mem@ == mv,
                fresh@.map_values(|s: String| s@) == canon_v.take(i as int).filter(diff_pred),
            decreases canon@.len() - i,
        {
            let c = &canon[i];
            let mut found = false;
            let mut j: usize = 0;
            while j < mem.cues.len() && !text::str_eq(mem.cues[j].as_str(), c.as_str())
                invariant
                    j <= mem.cues@.len(),
                    mem@ == mv,
                    forall|t: int| 0 <= t < j ==> mv.cues[t] != c@,
                decreases mem.cues@.len() - j,
            {
                j = j + 1;
            }
            found = j < mem.cues.len();
            proof {
                reveal(Seq::filter);
                assert(canon_v.take(i + 1).drop_last() =~= canon_v.take(i as int));
                assert(canon_v.take(i + 1).last() == c@);
                if found {
                    assert(mv.cues[j as int] == c@);
                    assert(mv.cues.contains(c@));
                } else {
                    assert(!mv.cues.contains(c@));
                }
            }
            if !found {
                fresh.push(c.clone());
            }
            proof {
                assert(fresh@.map_values(|s: String| s@) =~= canon_v.take(i + 1).filter(
                    diff_pred,
                ));
            }
            i = i + 1;
        }
        proof {
            assert(canon_v.take(canon@.len() as int) =~= canon_v);
        }
        let ghost diff = attach_diff(mv, cues@.map_values(|s: String| s@));
        proof {
            assert(fresh@.map_values(|s: String| s@) == diff);
        }
        if fresh.len() == 0 {
            ext::dmm_insert(&mut self.memories, memory_id.to_owned(), mem);
            proof {
                assert(mem_after_attach(mv, diff) =~= mv);
                assert(self.mems() =~= mems0.insert(memory_id@, mem_after_attach(mv, diff)));
                assert(index_add_all(sets0, diff, memory_id@) == sets0) by {
                    assert(diff.len() == 0);
                }
                assert(self.sets() == sets0);
                assert(self.mems() =~= mems0);
            }
            return false;
        }
        let mut k: usize = 0;
        while k < fresh.len()
            invariant
                k <= fresh@.len(),
                mem.cues@.map_values(|s: String| s@) =~= mv.cues + fresh@.map_values(
                    |s: String| s@,
                ).take(k as int),
                mem.id@ == mv.id,
                mem.content@ == mv.content,
                mem.created_at == mv.created_at,
                mem.last_accessed == mv.last_accessed,
                mem.reinforcement_count == mv.reinforcement_count,
                mem.metadata@.map_values(|kv: (String, String)| (kv.0@, kv.1@)) == mv.metadata,
            decreases fresh@.len() - k,
        {
            let ghost prev_cues = mem.cues@;
            mem.cues.push(fresh[k].clone());
            proof {
                let fv = fresh@.map_values(|s: String| s@);
                assert(fv.take(k + 1) =~= fv.take(k as int).push(fv[k as int]));
                assert(mem.cues@.len() == prev_cues.len() + 1);
                let prev_map = prev_cues.map_values(|s: String| s@);
                assert(prev_map == mv.cues + fv.take(k as int));
                assert(fv.len() == fresh@.len());
                assert(fv.take(k as int).len() == k);
                assert(prev_cues.len() == prev_map.len());
                assert(prev_cues.len() == mv.cues.len() + k);
                assert forall|t: int| 0 <= t < mem.cues@.len() implies ((
                #[trigger] mem.cues@[t])@) == (mv.cues + fv.take(k + 1))[t] by {
                    if t < prev_cues.len() {
                        assert(mem.cues@[t] == prev_cues[t]);
                        assert(prev_map[t] == prev_cues[t]@);
                        if t < mv.cues.len() {
                            assert((mv.cues + fv.take(k as int))[t] == mv.cues[t]);
                            assert((mv.cues + fv.take(k + 1))[t] == mv.cues[t]);
                        } else {
                            assert((mv.cues + fv.take(k as int))[t] == fv.take(k as int)[t
                                - mv.cues.len()]);
                            assert(fv.take(k as int)[t - mv.cues.len()] == fv[t - mv.cues.len()]);
                            assert((mv.cues + fv.take(k + 1))[t] == fv.take(k + 1)[t
                                - mv.cues.len()]);
                        }
                    } else {
                        assert(t == prev_cues.len());
                        assert(mem.cues@[t] == fresh@[k as int]);
                        assert((mv.cues + fv.take(k + 1))[t] == fv.take(k + 1)[k as int]);
                        assert(fv.take(k + 1)[k as int] == fv[k as int]);
                        assert(fv[k as int] == fresh@[k as int]@);
                    }
                }
                assert(mem.cues@.map_values(|s: String| s@) =~= mv.cues + fv.take(k + 1));
            }
            k = k + 1;
        }
        proof {
            let fv = fresh@.map_values(|s: String| s@);
            assert(fv.take(fresh@.len() as int) =~= fv);
            assert(mem@ =~= mem_after_attach(mv, diff));
        }
        ext::dmm_insert(&mut self.memories, memory_id.to_owned(), mem);
        self.index_add(&fresh, memory_id);
        proof {
            let ccs = canon_cues_spec(cues@.map_values(|s: String| s@));
            assert(self.mems() == mems0.insert(memory_id@, mem_after_attach(mv, diff)));
            assert(mems0.contains_key(memory_id@) && mems0[memory_id@] == mv);
            lemma_dedup_props(
                cues@.map_values(|s: String| s@).map_values(|c: Seq<char>| cue_canon_spec(c)).filter(
                    |c: Seq<char>| c.len() > 0,
                ),
            );
            lemma_filter_nodup(ccs, diff_pred);
            assert forall|j: int| 0 <= j < diff.len() implies cue_ok(#[trigger] diff[j]) by {
                Seq::lemma_filter_pred(ccs, diff_pred, j);
                lemma_filter_elem(ccs, diff_pred, diff[j]);
                let u = choose|u: int| 0 <= u < ccs.len() && ccs[u] == diff[j];
                assert(cue_ok(canon_v[u]));
            }
            assert forall|c: Seq<char>| #[trigger] diff.contains(c) implies
                !mems0[memory_id@].cues.contains(c) by {
                let j = choose|j: int| 0 <= j < diff.len() && diff[j] == c;
                Seq::lemma_filter_pred(ccs, diff_pred, j);
            }
            lemma_wf_attach(mems0, sets0, memory_id@, diff, mem_after_attach(mv, diff));
        }
        true
    }
}

} // verus!

verus! {

/// A copy of a cue list.
fn clone_cues(v: &Vec<String>) -> (r: Vec<String>)
    ensures
        r@.map_values(|s: String| s@) == v@.map_values(|s: String| s@),
{
    let mut out: Vec<String> = Vec::new();
    let mut i: usize = 0;
    while i < v.len()
        invariant
            i <= v@.len(),
            out@.len() == i,
            forall|j: int| 0 <= j < i ==> out@[j]@ == v@[j]@,
        decreases v@.len() - i,
    {
        out.push(v[i].clone());
        i = i + 1;
    }
    proof {
        assert(out@.map_values(|s: String| s@) =~= v@.map_values(|s: String| s@));
    }
    out
}

impl CueMapEngine {
    /// Touch the memory (access stamp forward, counter up, saturating)
    /// and move its id to the tail of each listed cue's set; an unknown
    /// cue gets an empty entry. `false` when the id is absent.
    pub fn reinforce_memory(&mut self, memory_id: &str, cues: Vec<String>, now: u64) -> (r: bool)
        requires
            old(self).wf(),
        ensures
            final(self).wf(),
            r == old(self).mems().contains_key(memory_id@),
            !old(self).mems().contains_key(memory_id@) ==> final(self).mems() == old(
                self,
            ).mems() && final(self).sets() == old(self).sets(),
            old(self).mems().contains_key(memory_id@) ==> final(self).mems() == old(
                self,
            ).mems().insert(
                memory_id@,
                mem_after_touch(old(self).mems()[memory_id@], now),
            ) && final(self).sets() == index_move_all(
                old(self).sets(),
                canon_cues_spec(cues@.map_values(|s: String| s@)),
                memory_id@,
            ),
    {
        let mut mem = match ext::dmm_remove(&mut self.memories, memory_id) {
            Some(m) => m,
            None => {
                proof {
                    assert(self.mems() =~= old(self).mems());
                }
                return false;
            },
        };
        let ghost mems0 = old(self).mems();
        let ghost sets0 = old(self).sets();
        let ghost mv = mems0[memory_id@];
        proof {
            assert(mem@ == mv);
        }
        mem.touch(now);
        if mem.reinforcement_count < u64::MAX {
            mem.reinforcement_count = mem.reinforcement_count + 1;
        }
        proof {
            assert(mem@ =~= mem_after_touch(mv, now));
        }
        ext::dmm_insert(&mut self.memories, memory_id.to_owned(), mem);
        let canon = Self::canon_list(&cues);
        self.index_move(&canon, memory_id);
        proof {
            let canon_v = canon@.map_values(|s: String| s@);
            assert(self.mems() == mems0.insert(memory_id@, mem_after_touch(mv, now)));
            lemma_wf_reinforce(mems0, sets0, memory_id@, canon_v, mem_after_touch(mv, now));
        }
        true
    }

    /// Remove the memory and clear its id from every set of the cues it
    /// carried. `false` when the id is absent.
    pub fn delete_memory(&mut self, memory_id: &str) -> (r: bool)
        requires
            old(self).wf(),
        ensures
            final(self).wf(),
            r == old(self).mems().contains_key(memory_id@),
            !old(self).mems().contains_key(memory_id@) ==> final(self).mems() == old(
                self,
            ).mems() && final(self).sets() == old(self).sets(),
            old(self).mems().contains_key(memory_id@) ==> final(self).mems() == old(
                self,
            ).mems().remove(memory_id@) && final(self).sets() == index_remove_all(
                old(self).sets(),
                old(self).mems()[memory_id@].cues,
                memory_id@,
            ),
    {
        let mem = match ext::dmm_remove(&mut self.memories, memory_id) {
            Some(m) => m,
            None => {
                proof {
                    assert(self.mems() =~= old(self).mems());
                }
                return false;
            },
        };
        let ghost mems0 = old(self).mems();
        let ghost sets0 = old(self).sets();
        let ghost mv = mems0[memory_id@];
        proof {
            assert(mem@ == mv);
            assert(mem.cues@.map_values(|s: String| s@) == mv.cues);
        }
        self.index_remove(&mem.cues, memory_id);
        proof {
            lemma_wf_delete(mems0, sets0, memory_id@);
        }
        true
    }

    /// Insert under a caller-supplied id, or fold into an existing
    /// memory: an existing id gets the new cues attached and, when asked,
    /// a reinforcement; a fresh id gets a new memory with the canonical
    /// cues indexed. Hands the id back.
    pub fn upsert_memory_with_id(
        &mut self,
        id: String,
        content: String,
        cues: Vec<String>,
        metadata: Vec<(String, String)>,
        reinforce: bool,
        now: u64,
    ) -> (r: String)
        requires
            old(self).wf(),
        ensures
            final(self).wf(),
            r@ == id@,
            !old(self).mems().contains_key(id@) ==> final(self).mems() == old(
                self,
            ).mems().insert(
                id@,
                fresh_view(
                    id@,
                    content@,
                    canon_cues_spec(cues@.map_values(|s: String| s@)),
                    metadata@.map_values(|kv: (String, String)| (kv.0@, kv.1@)),
                    now,
                ),
            ) && final(self).sets() == index_add_all(
                old(self).sets(),
                canon_cues_spec(cues@.map_values(|s: String| s@)),
                id@,
            ),
            old(self).mems().contains_key(id@) ==> {
                let mv = old(self).mems()[id@];
                let diff = attach_diff(mv, cues@.map_values(|s: String| s@));
                let m1 = mem_after_attach(mv, diff);
                let sets1 = index_add_all(old(self).sets(), diff, id@);
                if reinforce {
                    final(self).mems() == old(self).mems().insert(
                        id@,
                        mem_after_touch(m1, now),
                    ) && final(self).sets() == index_move_all(
                        sets1,
                        canon_cues_spec(cues@.map_values(|s: String| s@)),
                        id@,
                    )
                } else {
                    final(self).mems() == old(self).mems().insert(id@, m1) && final(self).sets()
                        == sets1
                }
            },
    {
        let present = match ext::dmm_get(&self.memories, id.as_str()) {
            Some(_) => true,
            None => false,
        };
        if present {
            let ghost mems0 = old(self).mems();
            let ghost mv = mems0[id@];
            let ghost cv = cues@.map_values(|s: String| s@);
            let ghost diff = attach_diff(mv, cv);
            let ghost m1 = mem_after_attach(mv, diff);
            if reinforce {
                let copy = clone_cues(&cues);
                proof {
                    assert(copy@.map_values(|s: String| s@) == cv);
                }
                self.attach_cues(id.as_str(), copy);
                let ghost mems1 = self.mems();
                proof {
                    assert(mems1 == mems0.insert(id@, m1));
                    assert(mems1[id@] == m1);
                }
                self.reinforce_memory(id.as_str(), cues, now);
                proof {
                    assert(self.mems() =~= mems0.insert(id@, mem_after_touch(m1, now)));
                }
            } else {
                self.attach_cues(id.as_str(), cues);
            }
            id
        } else {
            let canon = Self::canon_list(&cues);
            let ghost canon_v = canon@.map_values(|s: String| s@);
            let mut mem = Memory::new(id.clone(), content, metadata, now);
            mem.cues = canon;
            proof {
                assert(mem@ =~= fresh_view(
                    id@,
                    mem.content@,
                    canon_v,
                    mem.metadata@.map_values(|kv: (String, String)| (kv.0@, kv.1@)),
                    now,
                ));
            }
            ext::dmm_insert(&mut self.memories, id.clone(), mem);
            let canon2 = clone_cues(&mem_cues_back(&self.memories, id.as_str()));
            self.index_add(&canon2, id.as_str());
            proof {
                lemma_wf_insert_fresh(
                    old(self).mems(),
                    old(self).sets(),
                    id@,
                    self.mems()[id@],
                );
            }
            id
        }
    }
}

/// The stored cue list of a memory that is known to be present.
fn mem_cues_back(m: &dashmap::DashMap<String, Memory>, id: &str) -> (r: Vec<String>)
    requires
        ext::mem_entries(*m).contains_key(id@),
    ensures
        r@.map_values(|s: String| s@) == ext::mem_entries(*m)[id@].cues,
{
    match ext::dmm_get(m, id) {
        Some(mem) => mem.cues,
        None => Vec::new(),
    }
}

} // verus!

verus! {

impl CueMapEngine {
    /// Mint a random id and store a new memory under it (the unlikely
    /// collision with an existing id folds into that memory, as an
    /// upsert does).
    pub fn add_memory(
        &mut self,
        content: String,
        cues: Vec<String>,
        metadata: Vec<(String, String)>,
        now: u64,
    ) -> (r: String)
        requires
            old(self).wf(),
        ensures
            final(self).wf(),
            !old(self).mems().contains_key(r@) ==> final(self).mems() == old(self).mems().insert(
                r@,
                fresh_view(
                    r@,
                    content@,
                    canon_cues_spec(cues@.map_values(|s: String| s@)),
                    metadata@.map_values(|kv: (String, String)| (kv.0@, kv.1@)),
                    now,
                ),
            ) && final(self).sets() == index_add_all(
                old(self).sets(),
                canon_cues_spec(cues@.map_values(|s: String| s@)),
                r@,
            ),
            old(self).mems().contains_key(r@) ==> {
                let mv = old(self).mems()[r@];
                let diff = attach_diff(mv, cues@.map_values(|s: String| s@));
                final(self).mems() == old(self).mems().insert(r@, mem_after_attach(mv, diff))
                    && final(self).sets() == index_add_all(old(self).sets(), diff, r@)
            },
    {
        let id = ext::uuid_v4_string();
        self.upsert_memory_with_id(id, content, cues, metadata, false, now)
    }

    /// The stored memory under an id, if any.
    pub fn get_memory(&self, memory_id: &str) -> (r: Option<Memory>)
        ensures
            match r {
                Some(m) => self.mems().contains_key(memory_id@) && m@ == self.mems()[memory_id@],
                None => !self.mems().contains_key(memory_id@),
            },
    {
        ext::dmm_get(&self.memories, memory_id)
    }

    /// Whether the index knows the cue.
    pub fn has_cue(&self, cue: &str) -> (r: bool)
        ensures
            r == self.sets().contains_key(cue@),
    {
        match ext::dms_get(&self.cue_index, cue) {
            Some(_) => true,
            None => false,
        }
    }

    /// The ordered set under a cue, if any (a copy).
    pub fn cue_set(&self, cue: &str) -> (r: Option<OrderedSet>)
        requires
            self.wf(),
        ensures
            match r {
                Some(os) => self.sets().contains_key(cue@) && os.elems() == self.sets()[cue@]
                    && os.wf(),
                None => !self.sets().contains_key(cue@),
            },
    {
        ext::dms_get(&self.cue_index, cue)
    }

    /// Counts and the list of known cues (in no promised order).
    pub fn get_stats(&self) -> (r: EngineStats)
        ensures
            r.total_memories == self.mems().dom().len(),
            r.total_cues == self.sets().dom().len(),
            forall|i: int|
                0 <= i < r.cues@.len() ==> self.sets().contains_key((#[trigger] r.cues@[i])@),
            forall|c: Seq<char>|
                #[trigger] self.sets().contains_key(c) ==> exists|i: int|
                    0 <= i < r.cues@.len() && r.cues@[i]@ == c,
    {
        let total_memories = ext::dmm_len(&self.memories);
        let total_cues = ext::dms_len(&self.cue_index);
        let entries = ext::dms_entries(&self.cue_index);
        let mut cues: Vec<String> = Vec::new();
        let mut i: usize = 0;
        while i < entries.len()
            invariant
                i <= entries@.len(),
                cues@.len() == i,
                forall|j: int| 0 <= j < i ==> (#[trigger] cues@[j])@ == entries@[j].0@,
            decreases entries@.len() - i,
        {
            cues.push(entries[i].0.clone());
            i = i + 1;
        }
        let r = EngineStats { total_memories, total_cues, cues };
        proof {
            assert forall|c: Seq<char>| #[trigger] self.sets().contains_key(c) implies exists|
                j: int,
            | 0 <= j < r.cues@.len() && r.cues@[j]@ == c by {
                let j = choose|j: int| 0 <= j < entries@.len() && entries@[j].0@ == c;
                assert(r.cues@[j]@ == c);
            }
            assert forall|j: int| 0 <= j < r.cues@.len() implies self.sets().contains_key((
            #[trigger] r.cues@[j])@) by {
                assert(r.cues@[j]@ == entries@[j].0@);
                assert(ext::set_entries(self.cue_index).contains_key(entries@[j].0@));
            }
        }
        r
    }

    /// Every stored memory, as owned pairs (in no promised order).
    pub fn export_memories(&self) -> (r: Vec<(String, Memory)>)
        ensures
            forall|i: int|
                0 <= i < r@.len() ==> self.mems().contains_key((#[trigger] r@[i]).0@)
                    && r@[i].1@ == self.mems()[r@[i].0@],
            forall|i: int, j: int| 0 <= i < j < r@.len() ==> r@[i].0@ != r@[j].0@,
            forall|k: Seq<char>|
                #[trigger] self.mems().contains_key(k) ==> exists|i: int|
                    0 <= i < r@.len() && r@[i].0@ == k,
    {
        let r = ext::dmm_entries(&self.memories);
        proof {
            assert forall|i: int| 0 <= i < r@.len() implies self.mems().contains_key((
            #[trigger] r@[i]).0@) && r@[i].1@ == self.mems()[r@[i].0@] by {
                assert(ext::mem_entries(self.memories).contains_key(r@[i].0@));
            }
        }
        r
    }

    /// The whole cue index, each set in insertion order (oldest first),
    /// as owned pairs (pair order is not promised).
    pub fn export_cue_index(&self) -> (r: Vec<(String, Vec<String>)>)
        ensures
            forall|i: int|
                0 <= i < r@.len() ==> self.sets().contains_key((#[trigger] r@[i]).0@)
                    && r@[i].1@.map_values(|s: String| s@) == self.sets()[r@[i].0@],
            forall|i: int, j: int| 0 <= i < j < r@.len() ==> r@[i].0@ != r@[j].0@,
            forall|k: Seq<char>|
                #[trigger] self.sets().contains_key(k) ==> exists|i: int|
                    0 <= i < r@.len() && r@[i].0@ == k,
    {
        let entries = ext::dms_entries(&self.cue_index);
        let mut out: Vec<(String, Vec<String>)> = Vec::new();
        let mut i: usize = 0;
        while i < entries.len()
            invariant
                i <= entries@.len(),
                out@.len() == i,
                forall|j: int|
                    0 <= j < i ==> (#[trigger] out@[j]).0@ == entries@[j].0@ && out@[
                        j
                    ].1@.map_values(|s: String| s@) == entries@[j].1.elems(),
            decreases entries@.len() - i,
        {
            let key = entries[i].0.clone();
            let ids = entries[i].1.to_vec();
            proof {
                assert(ids@.map_values(|s: String| s@) =~= entries@[i as int].1.elems());
            }
            out.push((key, ids));
            i = i + 1;
        }
        proof {
            assert forall|c: Seq<char>| #[trigger] self.sets().contains_key(c) implies exists|
                j: int,
            | 0 <= j < out@.len() && out@[j].0@ == c by {
                let j = choose|j: int| 0 <= j < entries@.len() && entries@[j].0@ == c;
                assert(out@[j].0@ == c);
            }
            assert forall|j: int| 0 <= j < out@.len() implies self.sets().contains_key((
            #[trigger] out@[j]).0@) && out@[j].1@.map_values(|s: String| s@) == self.sets()[out@[
                j
            ].0@] by {
                assert(out@[j].0@ == entries@[j].0@);
                assert(ext::set_entries(self.cue_index).contains_key(entries@[j].0@));
                assert(entries@[j].1.elems() == ext::set_entries(self.cue_index)[entries@[j].0@]);
            }
        }
        out
    }
}

/// Repositioning an id to the tail twice is repositioning it once.
pub proof fn lemma_reposition_idempotent(s: Seq<Seq<char>>, v: Seq<char>)
    requires
        s.no_duplicates(),
    ensures
        seq_reposition(seq_reposition(s, v), v) == seq_reposition(s, v),
{
    lemma_remove_value(s, v);
    let t = s.remove_value(v);
    let rep = t.push(v);
    rep.index_of_first_ensures(v);
    assert(rep.contains(v)) by {
        assert(rep[rep.len() - 1] == v);
    }
    let i = rep.index_of_first(v).unwrap();
    assert(i == t.len()) by {
        if i < t.len() {
            assert(rep[i] == t[i]);
            assert(t.contains(v)) by {
                assert(t[i] == v);
            }
        }
    }
    assert(rep.remove_value(v) =~= t);
}

/// Move-to-end idempotence: reinforcing with the same cues twice leaves
/// the cue index exactly as one reinforcement does — the id sits at the
/// tail of each affected cue either way.
pub proof fn lemma_reinforce_index_idempotent(
    sets: Map<Seq<char>, Seq<Seq<char>>>,
    cues: Seq<Seq<char>>,
    id: Seq<char>,
)
    requires
        cues.no_duplicates(),
        forall|c: Seq<char>| #[trigger] sets.contains_key(c) ==> sets[c].no_duplicates(),
    ensures
        index_move_all(index_move_all(sets, cues, id), cues, id) == index_move_all(
            sets,
            cues,
            id,
        ),
{
    let sets1 = index_move_all(sets, cues, id);
    let sets2 = index_move_all(sets1, cues, id);
    lemma_index_move_all_props(sets, cues, id);
    lemma_index_move_all_props(sets1, cues, id);
    assert forall|c: Seq<char>| #[trigger] sets2.contains_key(c) implies sets1.contains_key(c)
        && sets2[c] == sets1[c] by {
        if cues.contains(c) {
            let s0 = ids_of(sets, c);
            assert(s0.no_duplicates());
            assert(sets1[c] == moved(s0, id));
            assert(sets2[c] == moved(ids_of(sets1, c), id));
            assert(ids_of(sets1, c) == moved(s0, id));
            if s0.contains(id) {
                lemma_reposition_props(s0, id);
                lemma_reposition_idempotent(s0, id);
                assert(moved(s0, id).contains(id));
            }
        }
    }
    assert forall|c: Seq<char>| #[trigger] sets1.contains_key(c) implies sets2.contains_key(
        c,
    ) by {}
    assert(sets2 =~= sets1);
}

} // verus!

verus! {

/// The deepest the driving scan walks one cue's list from the tail.
pub const MAX_DRIVER_SCAN: usize = 10000;

/// One ranked recall result; scores are fixed-point micro-units.
pub struct RecallResult {
    pub memory_id: String,
    pub content: String,
    pub score: u64,
    pub intersection_count: usize,
    pub recency_score: u64,
    pub reinforcement_score: u64,
    pub metadata: Vec<(String, String)>,
    pub explain: Option<Explain>,
}

/// The per-result scoring components, attached on request.
pub struct Explain {
    pub intersection_weighted: u64,
    pub intersection_score: u64,
    pub recency_component: u64,
    pub frequency_component: u64,
    pub weight_recency: u64,
    pub weight_frequency: u64,
    pub match_count: usize,
}

/// The active weighted query cues: canonicalized, non-empty and known to
/// the index, in query order (repeats kept, as given).
pub open spec fn active_cues(
    qs: Seq<(Seq<char>, u64)>,
    sets: Map<Seq<char>, Seq<Seq<char>>>,
) -> Seq<(Seq<char>, u64)> {
    qs.map_values(|p: (Seq<char>, u64)| (cue_canon_spec(p.0), p.1)).filter(
        |p: (Seq<char>, u64)| p.0.len() > 0 && sets.contains_key(p.0),
    )
}

/// The reverse-rank of an id in a cue's list: 0 is the tail (most
/// recent).
pub open spec fn rev_rank(s: Seq<Seq<char>>, m: Seq<char>) -> int {
    s.len() - 1 - s.index_of(m)
}

/// Whether the driving scan reaches the id: it sits in some active cue's
/// list within the scan depth of the tail.
pub open spec fn is_candidate(
    aw: Seq<(Seq<char>, u64)>,
    sets: Map<Seq<char>, Seq<Seq<char>>>,
    m: Seq<char>,
) -> bool {
    exists|i: int|
        0 <= i < aw.len() && sets.contains_key((#[trigger] aw[i]).0) && sets[aw[i].0].contains(m)
            && rev_rank(sets[aw[i].0], m) < MAX_DRIVER_SCAN
}

/// The match records of a candidate: for each active cue whose list holds
/// the id, its reverse-rank, the list length, and the query weight, in
/// query-cue order.
pub open spec fn matches_of(
    aw: Seq<(Seq<char>, u64)>,
    sets: Map<Seq<char>, Seq<Seq<char>>>,
    m: Seq<char>,
) -> Seq<crate::scoring::MatchInfo>
    decreases aw.len(),
{
    if aw.len() == 0 {
        Seq::empty()
    } else {
        let c = aw[0].0;
        let head: Seq<crate::scoring::MatchInfo> = if sets.contains_key(c)
            && sets[c].contains(m) {
            seq![
                crate::scoring::MatchInfo {
                    pos: rev_rank(sets[c], m) as usize,
                    len: sets[c].len() as usize,
                    weight: aw[0].1,
                },
            ]
        } else {
            Seq::empty()
        };
        head + matches_of(aw.drop_first(), sets, m)
    }
}

/// A candidate within scan depth of some active cue has at least one
/// match record.
pub proof fn lemma_candidate_has_match(
    aw: Seq<(Seq<char>, u64)>,
    sets: Map<Seq<char>, Seq<Seq<char>>>,
    m: Seq<char>,
)
    requires
        is_candidate(aw, sets, m),
    ensures
        matches_of(aw, sets, m).len() >= 1,
    decreases aw.len(),
{
    let i = choose|i: int|
        0 <= i < aw.len() && sets.contains_key((#[trigger] aw[i]).0) && sets[aw[i].0].contains(m)
            && rev_rank(sets[aw[i].0], m) < MAX_DRIVER_SCAN;
    if i == 0 {
        assert(matches_of(aw, sets, m).len() >= 1);
    } else {
        assert(is_candidate(aw.drop_first(), sets, m)) by {
            assert(aw.drop_first()[i - 1] == aw[i]);
        }
        lemma_candidate_has_match(aw.drop_first(), sets, m);
    }
}

/// Splitting the match fold at any point.
pub proof fn lemma_matches_skip(
    aw: Seq<(Seq<char>, u64)>,
    sets: Map<Seq<char>, Seq<Seq<char>>>,
    m: Seq<char>,
    i: int,
)
    requires
        0 <= i < aw.len(),
    ensures
        matches_of(aw.skip(i), sets, m) == (if sets.contains_key(aw[i].0) && sets[
            aw[i].0
        ].contains(m) {
            seq![
                crate::scoring::MatchInfo {
                    pos: rev_rank(sets[aw[i].0], m) as usize,
                    len: sets[aw[i].0].len() as usize,
                    weight: aw[i].1,
                },
            ]
        } else {
            Seq::<crate::scoring::MatchInfo>::empty()
        }) + matches_of(aw.skip(i + 1), sets, m),
{
    assert(aw.skip(i)[0] == aw[i]);
    assert(aw.skip(i).drop_first() =~= aw.skip(i + 1));
}

} // verus!

verus! {

/// The weighted-cue view of the gathered active list.
pub open spec fn aw_of(a: Seq<(String, u64, OrderedSet)>) -> Seq<(Seq<char>, u64)> {
    a.map_values(|p: (String, u64, OrderedSet)| (p.0@, p.1))
}

/// The match records of one id against every active cue, by constant-time
/// probes.
fn probe_matches(
    active: &Vec<(String, u64, OrderedSet)>,
    id: &str,
    Ghost(sets): Ghost<Map<Seq<char>, Seq<Seq<char>>>>,
) -> (ms: Vec<crate::scoring::MatchInfo>)
    requires
        forall|j: int|
            0 <= j < active@.len() ==> sets.contains_key((#[trigger] active@[j]).0@) && active@[
                j
            ].2.elems() == sets[active@[j].0@] && active@[j].2.wf() && 1 <= active@[j].1 <= SCALE,
    ensures
        ms@ == matches_of(aw_of(active@), sets, id@),
        ms@.len() <= active@.len(),
        forall|i: int| 0 <= i < ms@.len() ==> crate::scoring::match_ok(#[trigger] ms@[i]),
{
    let ghost aw = aw_of(active@);
    let mut ms: Vec<crate::scoring::MatchInfo> = Vec::new();
    let mut j: usize = 0;
    proof {
        assert(aw.skip(0) =~= aw);
    }
    while j < active.len()
        invariant
            j <= active@.len(),
            aw == aw_of(active@),
            forall|t: int|
                0 <= t < active@.len() ==> sets.contains_key((#[trigger] active@[t]).0@)
                    && active@[t].2.elems() == sets[active@[t].0@] && active@[t].2.wf() && 1
                    <= active@[t].1 <= SCALE,
            matches_of(aw, sets, id@) == ms@ + matches_of(aw.skip(j as int), sets, id@),
            ms@.len() <= j,
            forall|i: int| 0 <= i < ms@.len() ==> crate::scoring::match_ok(#[trigger] ms@[i]),
        decreases active@.len() - j,
    {
        let os = &active[j].2;
        proof {
            lemma_matches_skip(aw, sets, id@, j as int);
            assert(aw[j as int] == (active@[j as int].0@, active@[j as int].1));
        }
        match os.get_index_of(id) {
            Some(idx) => {
                let ln = os.len();
                let m = crate::scoring::MatchInfo {
                    pos: ln - 1 - idx,
                    len: ln,
                    weight: active[j].1,
                };
                proof {
                    let c = aw[j as int].0;
                    let e = sets[c];
                    assert(e[idx as int] == id@);
                    assert(e.contains(id@)) by {
                        assert(e[idx as int] == id@);
                    }
                    let io = e.index_of(id@);
                    assert(0 <= io < e.len() && e[io] == id@);
                    assert(io == idx) by {
                        if io != idx {
                            assert(e[io] == e[idx as int]);
                        }
                    }
                    assert(m.pos == rev_rank(e, id@));
                    assert(crate::scoring::match_ok(m));
                }
                ms.push(m);
            },
            None => {
                proof {
                    let c = aw[j as int].0;
                    assert(!sets[c].contains(id@));
                }
            },
        }
        j = j + 1;
    }
    proof {
        assert(aw.skip(active@.len() as int).len() == 0);
        assert(matches_of(aw.skip(active@.len() as int), sets, id@) =~= Seq::<
            crate::scoring::MatchInfo,
        >::empty());
        assert(ms@ =~= matches_of(aw, sets, id@));
    }
    ms
}

} // verus!

verus! {

/// Whether the id is within the driving scan of one cue.
pub open spec fn in_scan(
    sets: Map<Seq<char>, Seq<Seq<char>>>,
    c: Seq<char>,
    m: Seq<char>,
) -> bool {
    sets.contains_key(c) && sets[c].contains(m) && rev_rank(sets[c], m) < MAX_DRIVER_SCAN
}

/// Whether a candidate passes the minimum-intersection cut.
pub open spec fn qualifies(
    aw: Seq<(Seq<char>, u64)>,
    sets: Map<Seq<char>, Seq<Seq<char>>>,
    m: Seq<char>,
    min_i: Option<usize>,
) -> bool {
    match min_i {
        Some(k) => matches_of(aw, sets, m).len() >= k,
        None => true,
    }
}

/// One result is sound: it names a candidate, reports the stored content
/// and metadata, carries exactly the spec's scores for its matches, and
/// its explanation (present exactly when asked for) reports the exact
/// components.
pub open spec fn valid_result(
    r: RecallResult,
    aw: Seq<(Seq<char>, u64)>,
    sets: Map<Seq<char>, Seq<Seq<char>>>,
    mems: Map<Seq<char>, MemView>,
    explain: bool,
) -> bool {
    let m = r.memory_id@;
    let ms = matches_of(aw, sets, m);
    &&& is_candidate(aw, sets, m)
    &&& mems.contains_key(m)
    &&& r.content@ == mems[m].content
    &&& r.metadata@.map_values(|kv: (String, String)| (kv.0@, kv.1@)) == mems[m].metadata
    &&& r.score == crate::scoring::score_spec(ms, mems[m].reinforcement_count as nat)
    &&& r.intersection_count == ms.len()
    &&& r.recency_score == crate::scoring::recency_spec(ms)
    &&& r.reinforcement_score == crate::scoring::freq_score_spec(
        mems[m].reinforcement_count as nat,
    )
    &&& (r.explain is Some) == explain
    &&& match r.explain {
        Some(e) => {
            &&& e.intersection_weighted == crate::scoring::sum_weight(ms)
            &&& e.intersection_score == 100 * crate::scoring::sum_weight(ms)
            &&& e.recency_component == crate::scoring::recency_spec(ms)
            &&& e.frequency_component == crate::scoring::freq_score_spec(
                mems[m].reinforcement_count as nat,
            )
            &&& e.weight_recency == crate::scoring::sum_wrec(ms) / ms.len()
            &&& e.weight_frequency == crate::scoring::sum_wfreq(ms) / ms.len()
            &&& e.match_count == ms.len()
        },
        None => true,
    }
}

/// What a recall returns: at most `limit` sound, qualifying results with
/// distinct ids, sorted by score descending; and when the list is not
/// full, every qualifying candidate is in it.
pub open spec fn recall_ok(
    results: Seq<RecallResult>,
    aw: Seq<(Seq<char>, u64)>,
    sets: Map<Seq<char>, Seq<Seq<char>>>,
    mems: Map<Seq<char>, MemView>,
    limit: usize,
    min_i: Option<usize>,
    explain: bool,
) -> bool {
    &&& results.len() <= limit
    &&& forall|j: int|
        0 <= j < results.len() ==> valid_result(#[trigger] results[j], aw, sets, mems, explain)
    &&& forall|j: int|
        0 <= j < results.len() ==> qualifies(
            aw,
            sets,
            (#[trigger] results[j]).memory_id@,
            min_i,
        )
    &&& forall|i: int, j: int| 0 <= i < j < results.len() ==> results[i].score >= results[j].score
    &&& forall|i: int, j: int|
        0 <= i < j < results.len() ==> results[i].memory_id@ != results[j].memory_id@
    &&& (results.len() < limit ==> forall|m: Seq<char>|
        #[trigger] is_candidate(aw, sets, m) && qualifies(aw, sets, m, min_i) ==> exists|j: int|
            0 <= j < results.len() && (#[trigger] results[j]).memory_id@ == m)
    &&& (results.len() == limit && limit > 0 ==> forall|m: Seq<char>|
        #[trigger] is_candidate(aw, sets, m) && qualifies(aw, sets, m, min_i) && !(exists|j: int|
            0 <= j < results.len() && (#[trigger] results[j]).memory_id@ == m)
            ==> crate::scoring::score_spec(
            matches_of(aw, sets, m),
            mems[m].reinforcement_count as nat,
        ) <= results.last().score)
}

/// How a recall with reinforcement may change the state: no memory comes
/// or goes, contents and cues stay, access stamps and counters only move
/// forward, and every cue set keeps its length and members (they may be
/// reordered).
pub open spec fn state_evolved(
    m0: Map<Seq<char>, MemView>,
    s0: Map<Seq<char>, Seq<Seq<char>>>,
    m1: Map<Seq<char>, MemView>,
    s1: Map<Seq<char>, Seq<Seq<char>>>,
) -> bool {
    &&& m1.dom() == m0.dom()
    &&& forall|id: Seq<char>|
        #[trigger] m0.contains_key(id) ==> {
            let a = m0[id];
            let b = m1[id];
            &&& b.id == a.id
            &&& b.content == a.content
            &&& b.created_at == a.created_at
            &&& b.cues == a.cues
            &&& b.metadata == a.metadata
            &&& b.last_accessed >= a.last_accessed
            &&& b.reinforcement_count >= a.reinforcement_count
        }
    &&& s1.dom() == s0.dom()
    &&& forall|c: Seq<char>|
        #[trigger] s0.contains_key(c) ==> s1[c].len() == s0[c].len() && (forall|x: Seq<char>|
            #![auto]
            s1[c].contains(x) <==> s0[c].contains(x))
}

/// Whether some active query cue is the given canonical cue.
pub open spec fn aw_mentions(aw: Seq<(Seq<char>, u64)>, c: Seq<char>) -> bool {
    exists|u: int| 0 <= u < aw.len() && (#[trigger] aw[u]).0 == c
}

/// What a reinforcing recall does to the state, pointwise: a memory's
/// entry is touched (access stamp forward to `now`, counter up by one,
/// saturating) exactly when the query's scan reaches it and it clears the
/// intersection floor; every other entry stays as it was; and the index
/// entry of every cue outside the active query cues stays as it was.
pub open spec fn reinforced_exactly(
    m0: Map<Seq<char>, MemView>,
    s0: Map<Seq<char>, Seq<Seq<char>>>,
    m1: Map<Seq<char>, MemView>,
    s1: Map<Seq<char>, Seq<Seq<char>>>,
    aw: Seq<(Seq<char>, u64)>,
    min_i: Option<usize>,
    now: u64,
) -> bool {
    &&& forall|id: Seq<char>|
        #[trigger] m0.contains_key(id) ==> m1[id] == (if is_candidate(aw, s0, id) && qualifies(
            aw,
            s0,
            id,
            min_i,
        ) {
            mem_after_touch(m0[id], now)
        } else {
            m0[id]
        })
    &&& forall|c: Seq<char>|
        #[trigger] s0.contains_key(c) && !aw_mentions(aw, c) ==> s1[c] == s0[c]
}

/// One reinforcement step keeps the evolution relation, when every moved
/// cue is already an index entry.
pub proof fn lemma_evolved_step(
    m0: Map<Seq<char>, MemView>,
    s0: Map<Seq<char>, Seq<Seq<char>>>,
    m1: Map<Seq<char>, MemView>,
    s1: Map<Seq<char>, Seq<Seq<char>>>,
    id: Seq<char>,
    cues: Seq<Seq<char>>,
    now: u64,
)
    requires
        state_evolved(m0, s0, m1, s1),
        m1.contains_key(id),
        cues.no_duplicates(),
        forall|j: int| 0 <= j < cues.len() ==> s1.contains_key(#[trigger] cues[j]),
        forall|c: Seq<char>| #[trigger] s1.contains_key(c) ==> s1[c].no_duplicates(),
    ensures
        state_evolved(
            m0,
            s0,
            m1.insert(id, mem_after_touch(m1[id], now)),
            index_move_all(s1, cues, id),
        ),
{
    let m2 = m1.insert(id, mem_after_touch(m1[id], now));
    let s2 = index_move_all(s1, cues, id);
    lemma_index_move_all_props(s1, cues, id);
    assert(m2.dom() =~= m1.dom());
    assert(s2.dom() =~= s1.dom()) by {
        assert forall|c: Seq<char>| #[trigger] s2.contains_key(c) implies s1.contains_key(c) by {
            if cues.contains(c) {
                let j = choose|j: int| 0 <= j < cues.len() && cues[j] == c;
                assert(s1.contains_key(cues[j]));
            }
        }
    }
    assert forall|c: Seq<char>| #[trigger] s0.contains_key(c) implies s2[c].len() == s0[c].len()
        && (forall|x: Seq<char>| #![auto] s2[c].contains(x) <==> s0[c].contains(x)) by {
        assert(s1.contains_key(c));
        if cues.contains(c) {
            assert(s2[c] == moved(ids_of(s1, c), id));
            if s1[c].contains(id) {
                lemma_reposition_props(s1[c], id);
                lemma_remove_value(s1[c], id);
            }
        } else {
            assert(s2[c] == s1[c]);
        }
    }
}

} // verus!

verus! {

impl CueMapEngine {
    /// Weighted recall: gather the candidates within scan depth of any
    /// active query cue, score them, drop those under the intersection
    /// floor, reinforce the survivors when asked, and return the top
    /// `limit` by score. The results are judged against the state as it
    /// was when the call began.
    #[verifier::rlimit(100)]
    pub fn recall_weighted(
        &mut self,
        query_cues: Vec<(String, u64)>,
        limit: usize,
        auto_reinforce: bool,
        min_intersection: Option<usize>,
        explain: bool,
        now: u64,
    ) -> (results: Vec<RecallResult>)
        requires
            old(self).wf(),
            query_cues@.len() <= 1000000,
            forall|i: int|
                0 <= i < query_cues@.len() ==> 1 <= (#[trigger] query_cues@[i]).1 <= SCALE,
        ensures
            final(self).wf(),
            recall_ok(
                results@,
                active_cues(
                    query_cues@.map_values(|p: (String, u64)| (p.0@, p.1)),
                    old(self).sets(),
                ),
                old(self).sets(),
                old(self).mems(),
                limit,
                min_intersection,
                explain,
            ),
            !auto_reinforce ==> final(self).mems() == old(self).mems() && final(self).sets()
                == old(self).sets(),
            auto_reinforce ==> state_evolved(
                old(self).mems(),
                old(self).sets(),
                final(self).mems(),
                final(self).sets(),
            ),
            auto_reinforce ==> reinforced_exactly(
                old(self).mems(),
                old(self).sets(),
                final(self).mems(),
                final(self).sets(),
                active_cues(
                    query_cues@.map_values(|p: (String, u64)| (p.0@, p.1)),
                    old(self).sets(),
                ),
                min_intersection,
                now,
            ),
    {
        let ghost mems0 = self.mems();
        let ghost sets0 = self.sets();
        let ghost qv = query_cues@.map_values(|p: (String, u64)| (p.0@, p.1));
        let ghost aw = active_cues(qv, sets0);
        let ghost act_pred = |p: (Seq<char>, u64)| p.0.len() > 0 && sets0.contains_key(p.0);
        // gather the active cues: canonical, non-empty, known to the index
        let mut active: Vec<(String, u64, OrderedSet)> = Vec::new();
        let mut qi: usize = 0;
        proof {
            reveal(Seq::filter);
            assert(qv.take(0).map_values(|p: (Seq<char>, u64)| (cue_canon_spec(p.0), p.1)).filter(
                act_pred,
            ) =~= Seq::<(Seq<char>, u64)>::empty());
        }
        while qi < query_cues.len()
            invariant
                qi <= query_cues@.len(),
                query_cues@.len() <= 1000000,
                qv == query_cues@.map_values(|p: (String, u64)| (p.0@, p.1)),
                act_pred == (|p: (Seq<char>, u64)| p.0.len() > 0 && sets0.contains_key(p.0)),
                sets0 == self.sets(),
                mems0 == self.mems(),
                self.wf(),
                forall|i: int|
                    0 <= i < query_cues@.len() ==> 1 <= (#[trigger] query_cues@[i]).1 <= SCALE,
                aw_of(active@) == qv.take(qi as int).map_values(
                    |p: (Seq<char>, u64)| (cue_canon_spec(p.0), p.1),
                ).filter(act_pred),
                forall|j: int|
                    0 <= j < active@.len() ==> sets0.contains_key((#[trigger] active@[j]).0@)
                        && active@[j].2.elems() == sets0[active@[j].0@] && active@[j].2.wf() && 1
                        <= active@[j].1 <= SCALE && cue_ok(active@[j].0@),
            decreases query_cues@.len() - qi,
        {
            let raw = &query_cues[qi];
            let c = Self::canon_one(raw.0.as_str());
            let ghost canon_pair = (cue_canon_spec(qv[qi as int].0), qv[qi as int].1);
            proof {
                reveal(Seq::filter);
                let mapped = qv.take(qi + 1).map_values(
                    |p: (Seq<char>, u64)| (cue_canon_spec(p.0), p.1),
                );
                assert(mapped.drop_last() =~= qv.take(qi as int).map_values(
                    |p: (Seq<char>, u64)| (cue_canon_spec(p.0), p.1),
                ));
                assert(mapped.last() == canon_pair);
                lemma_canon_fixed(qv[qi as int].0);
            }
            if c.len() > 0 {
                let cs = text::to_string(&c);
                match self.cue_set(cs.as_str()) {
                    Some(os) => {
                        active.push((cs, raw.1, os));
                        proof {
                            assert(aw_of(active@) =~= qv.take(qi + 1).map_values(
                                |p: (Seq<char>, u64)| (cue_canon_spec(p.0), p.1),
                            ).filter(act_pred));
                        }
                    },
                    None => {
                        proof {
                            assert(!act_pred(canon_pair));
                            assert(aw_of(active@) =~= qv.take(qi + 1).map_values(
                                |p: (Seq<char>, u64)| (cue_canon_spec(p.0), p.1),
                            ).filter(act_pred));
                        }
                    },
                }
            } else {
                proof {
                    assert(!act_pred(canon_pair));
                    assert(aw_of(active@) =~= qv.take(qi + 1).map_values(
                        |p: (Seq<char>, u64)| (cue_canon_spec(p.0), p.1),
                    ).filter(act_pred));
                }
            }
            qi = qi + 1;
        }
        proof {
            assert(qv.take(query_cues@.len() as int) =~= qv);
            assert(aw_of(active@) == aw);
            assert(active@.len() == aw.len());
        }
        // gather and score the candidates
        let mut cand_ids: Vec<String> = Vec::new();
        let mut found: Vec<RecallResult> = Vec::new();
        let mut ci: usize = 0;
        while ci < active.len()
            invariant
                ci <= active@.len(),
                aw == aw_of(active@),
                aw.len() == active@.len(),
                aw.len() <= 1000000,
                sets0 == self.sets(),
                mems0 == self.mems(),
                self.wf(),
                forall|j: int|
                    0 <= j < active@.len() ==> sets0.contains_key((#[trigger] active@[j]).0@)
                        && active@[j].2.elems() == sets0[active@[j].0@] && active@[j].2.wf() && 1
                        <= active@[j].1 <= SCALE && cue_ok(active@[j].0@),
                forall|t: int|
                    0 <= t < cand_ids@.len() ==> is_candidate(
                        aw,
                        sets0,
                        (#[trigger] cand_ids@[t])@,
                    ),
                forall|t: int, u: int|
                    0 <= t < u < cand_ids@.len() ==> cand_ids@[t]@ != cand_ids@[u]@,
                forall|k: int, m: Seq<char>|
                    0 <= k < ci && #[trigger] in_scan(sets0, aw[k].0, m) ==> exists|t: int|
                        0 <= t < cand_ids@.len() && (#[trigger] cand_ids@[t])@ == m,
                forall|j: int|
                    0 <= j < found@.len() ==> valid_result(
                        #[trigger] found@[j],
                        aw,
                        sets0,
                        mems0,
                        explain,
                    ) && qualifies(aw, sets0, found@[j].memory_id@, min_intersection),
                forall|i: int, j: int|
                    0 <= i < j < found@.len() ==> found@[i].memory_id@ != found@[j].memory_id@,
                forall|t: int|
                    0 <= t < cand_ids@.len() && qualifies(
                        aw,
                        sets0,
                        (#[trigger] cand_ids@[t])@,
                        min_intersection,
                    ) ==> exists|j: int|
                        0 <= j < found@.len() && (#[trigger] found@[j]).memory_id@ == cand_ids@[
                            t
                        ]@,
                forall|j: int|
                    0 <= j < found@.len() ==> exists|t: int|
                        0 <= t < cand_ids@.len() && cand_ids@[t]@ == (#[trigger] found@[
                            j
                        ]).memory_id@,
            decreases active@.len() - ci,
        {
            let os = &active[ci].2;
            let window = os.get_recent(Some(MAX_DRIVER_SCAN));
            let ghost e = sets0[aw[ci as int].0];
            proof {
                assert(os.elems() == e);
            }
            proof {
                assert forall|t: int|
                    0 <= t < cand_ids@.len() && qualifies(
                        aw,
                        sets0,
                        (#[trigger] cand_ids@[t])@,
                        min_intersection,
                    ) implies exists|j: int|
                    0 <= j < found@.len() && (#[trigger] found@[j]).memory_id@ == cand_ids@[
                        t
                    ]@ by {
                    let j = choose|j: int|
                        0 <= j < found@.len() && (#[trigger] found@[j]).memory_id@ == cand_ids@[
                            t
                        ]@;
                    assert(found@[j].memory_id@ == cand_ids@[t]@);
                }
                assert forall|j: int| 0 <= j < found@.len() implies exists|t: int|
                    0 <= t < cand_ids@.len() && cand_ids@[t]@ == (#[trigger] found@[
                        j
                    ]).memory_id@ by {
                    let t = choose|t: int|
                        0 <= t < cand_ids@.len() && cand_ids@[t]@ == (#[trigger] found@[
                            j
                        ]).memory_id@;
                    assert(cand_ids@[t]@ == found@[j].memory_id@);
                }
            }
            let mut wi: usize = 0;
            while wi < window.len()
                invariant
                    wi <= window@.len(),
                    ci < active@.len(),
                    aw == aw_of(active@),
                    aw.len() == active@.len(),
                    aw.len() <= 1000000,
                    sets0 == self.sets(),
                    mems0 == self.mems(),
                    self.wf(),
                    e == sets0[aw[ci as int].0],
                    sets0.contains_key(aw[ci as int].0),
                    e.no_duplicates(),
                    window@.len() == (if MAX_DRIVER_SCAN < e.len() {
                        MAX_DRIVER_SCAN as nat
                    } else {
                        e.len()
                    }),
                    forall|t: int|
                        0 <= t < window@.len() ==> (#[trigger] window@[t])@ == e[e.len() - 1 - t],
                    forall|j: int|
                        0 <= j < active@.len() ==> sets0.contains_key((#[trigger] active@[j]).0@)
                            && active@[j].2.elems() == sets0[active@[j].0@] && active@[j].2.wf()
                            && 1 <= active@[j].1 <= SCALE && cue_ok(active@[j].0@),
                    forall|t: int|
                        0 <= t < cand_ids@.len() ==> is_candidate(
                            aw,
                            sets0,
                            (#[trigger] cand_ids@[t])@,
                        ),
                    forall|t: int, u: int|
                        0 <= t < u < cand_ids@.len() ==> cand_ids@[t]@ != cand_ids@[u]@,
                    forall|k: int, m: Seq<char>|
                        0 <= k < ci && #[trigger] in_scan(sets0, aw[k].0, m) ==> exists|t: int|
                            0 <= t < cand_ids@.len() && (#[trigger] cand_ids@[t])@ == m,
                    forall|m: Seq<char>|
                        #[trigger] in_scan(sets0, aw[ci as int].0, m) && rev_rank(e, m) < wi
                            ==> exists|t: int|
                            0 <= t < cand_ids@.len() && (#[trigger] cand_ids@[t])@ == m,
                    forall|j: int|
                        0 <= j < found@.len() ==> valid_result(
                            #[trigger] found@[j],
                            aw,
                            sets0,
                            mems0,
                            explain,
                        ) && qualifies(aw, sets0, found@[j].memory_id@, min_intersection),
                    forall|i: int, j: int|
                        0 <= i < j < found@.len() ==> found@[i].memory_id@ != found@[
                            j
                        ].memory_id@,
                    forall|t: int|
                        0 <= t < cand_ids@.len() && qualifies(
                            aw,
                            sets0,
                            (#[trigger] cand_ids@[t])@,
                            min_intersection,
                        ) ==> exists|j: int|
                            0 <= j < found@.len() && (#[trigger] found@[j]).memory_id@
                                == cand_ids@[t]@,
                    forall|j: int|
                        0 <= j < found@.len() ==> exists|t: int|
                            0 <= t < cand_ids@.len() && cand_ids@[t]@ == (#[trigger] found@[
                                j
                            ]).memory_id@,
                decreases window@.len() - wi,
            {
                let id = &window[wi];
                let ghost cand_entry = cand_ids@;
                let ghost found_entry = found@;
                proof {
                    assert(id@ == e[e.len() - 1 - wi]);
                    assert(e.contains(id@)) by {
                        assert(e[e.len() - 1 - wi] == id@);
                    }
                    let io = e.index_of(id@);
                    assert(0 <= io < e.len() && e[io] == id@) by {
                        let w = choose|w: int| 0 <= w < e.len() && e[w] == id@;
                        assert(e[w] == id@);
                    }
                    assert(io == e.len() - 1 - wi) by {
                        if io != e.len() - 1 - wi {
                            assert(e[io] == e[e.len() - 1 - wi]);
                        }
                    }
                    assert(rev_rank(e, id@) == wi);
                    assert(in_scan(sets0, aw[ci as int].0, id@));
                    assert(is_candidate(aw, sets0, id@)) by {
                        assert(sets0.contains_key((aw[ci as int]).0) && sets0[
                            aw[ci as int].0
                        ].contains(id@) && rev_rank(sets0[aw[ci as int].0], id@)
                            < MAX_DRIVER_SCAN);
                    }
                }
                // skip an id already gathered from an earlier window
                let mut sk: usize = 0;
                while sk < cand_ids.len() && !text::str_eq(cand_ids[sk].as_str(), id.as_str())
                    invariant
                        sk <= cand_ids@.len(),
                        forall|t: int| 0 <= t < sk ==> (#[trigger] cand_ids@[t])@ != id@,
                    decreases cand_ids@.len() - sk,
                {
                    sk = sk + 1;
                }
                if sk == cand_ids.len() {
                    // a new candidate: probe, score, and keep it if it
                    // passes the intersection floor
                    cand_ids.push(id.clone());
                    let ms = probe_matches(&active, id.as_str(), Ghost(sets0));
                    proof {
                        lemma_candidate_has_match(aw, sets0, id@);
                    }
                    let keep = match min_intersection {
                        Some(k) => ms.len() >= k,
                        None => true,
                    };
                    if keep {
                        let mem = match self.get_memory(id.as_str()) {
                            Some(m) => m,
                            None => {
                                proof {
                                    assert(sets0[aw[ci as int].0].contains(id@));
                                    assert(false);
                                }
                                Memory::new(String::new(), String::new(), Vec::new(), 0)
                            },
                        };
                        let parts = crate::scoring::score_matches(&ms, mem.reinforcement_count);
                        let expl = if explain {
                            Some(
                                Explain {
                                    intersection_weighted: parts.weight_sum,
                                    intersection_score: parts.intersection,
                                    recency_component: parts.recency,
                                    frequency_component: parts.freq,
                                    weight_recency: parts.avg_rec,
                                    weight_frequency: parts.avg_freq,
                                    match_count: ms.len(),
                                },
                            )
                        } else {
                            None
                        };
                        let rr = RecallResult {
                            memory_id: id.clone(),
                            content: mem.content,
                            score: parts.score,
                            intersection_count: ms.len(),
                            recency_score: parts.recency,
                            reinforcement_score: parts.freq,
                            metadata: mem.metadata,
                            explain: expl,
                        };
                        proof {
                            lemma_candidate_has_match(aw, sets0, id@);
                            assert(valid_result(rr, aw, sets0, mems0, explain));
                        }
                        found.push(rr);
                    }
                    proof {
                        assert(cand_ids@.len() == cand_entry.len() + 1);
                        assert(forall|t: int|
                            0 <= t < cand_entry.len() ==> cand_ids@[t] == cand_entry[t]);
                        assert(cand_ids@[cand_ids@.len() - 1]@ == id@);
                        if keep {
                            assert(found@.drop_last() =~= found_entry);
                            assert(found@[found@.len() - 1].memory_id@ == id@);
                        } else {
                            assert(found@ == found_entry);
                            assert(!qualifies(aw, sets0, id@, min_intersection));
                        }
                        assert forall|t: int, u: int|
                            0 <= t < u < cand_ids@.len() implies cand_ids@[t]@ != cand_ids@[
                            u
                        ]@ by {
                            if u == cand_ids@.len() - 1 {
                                assert(cand_entry[t]@ != id@);
                            } else {
                                assert(cand_entry[t]@ != cand_entry[u]@);
                            }
                        }
                        assert forall|t: int| 0 <= t < cand_ids@.len() implies is_candidate(
                            aw,
                            sets0,
                            (#[trigger] cand_ids@[t])@,
                        ) by {
                            if t < cand_entry.len() {
                                assert(is_candidate(aw, sets0, cand_entry[t]@));
                            }
                        }
                        assert forall|t: int|
                            0 <= t < cand_ids@.len() && qualifies(
                                aw,
                                sets0,
                                (#[trigger] cand_ids@[t])@,
                                min_intersection,
                            ) implies exists|j: int|
                            0 <= j < found@.len() && (#[trigger] found@[j]).memory_id@
                                == cand_ids@[t]@ by {
                            if t < cand_entry.len() {
                                let j = choose|j: int|
                                    0 <= j < found_entry.len() && (
                                    #[trigger] found_entry[j]).memory_id@ == cand_entry[t]@;
                                assert(found@[j].memory_id@ == cand_ids@[t]@);
                            } else {
                                assert(cand_ids@[t]@ == id@);
                                assert(keep);
                                assert(found@[found@.len() - 1].memory_id@ == id@);
                            }
                        }
                        assert forall|j: int| 0 <= j < found@.len() implies exists|t: int|
                            0 <= t < cand_ids@.len() && cand_ids@[t]@ == (#[trigger] found@[
                                j
                            ]).memory_id@ by {
                            if j < found_entry.len() {
                                assert(found@[j] == found_entry[j]);
                                let t = choose|t: int|
                                    0 <= t < cand_entry.len() && cand_entry[t]@ == (
                                    #[trigger] found_entry[j]).memory_id@;
                                assert(cand_ids@[t]@ == found@[j].memory_id@);
                            } else {
                                assert(found@[j].memory_id@ == id@);
                                assert(cand_ids@[cand_ids@.len() - 1]@ == id@);
                            }
                        }
                        assert forall|i2: int, j2: int|
                            0 <= i2 < j2 < found@.len() implies found@[i2].memory_id@
                            != found@[j2].memory_id@ by {
                            if j2 < found_entry.len() {
                                assert(found_entry[i2].memory_id@ != found_entry[
                                    j2
                                ].memory_id@);
                            } else {
                                assert(found@[j2].memory_id@ == id@);
                                let t = choose|t: int|
                                    0 <= t < cand_entry.len() && cand_entry[t]@ == (
                                    #[trigger] found_entry[i2]).memory_id@;
                                assert(cand_entry[t]@ != id@);
                            }
                        }
                        assert forall|m: Seq<char>|
                            #[trigger] in_scan(sets0, aw[ci as int].0, m) && rev_rank(e, m) < wi
                                + 1 implies exists|t: int|
                            0 <= t < cand_ids@.len() && (#[trigger] cand_ids@[t])@ == m by {
                            assert(e.contains(m));
                            let io2 = e.index_of(m);
                            assert(0 <= io2 < e.len() && e[io2] == m) by {
                                let w = choose|w: int| 0 <= w < e.len() && e[w] == m;
                                assert(e[w] == m);
                            }
                            if rev_rank(e, m) == wi {
                                assert(io2 == e.len() - 1 - wi);
                                assert(m == id@);
                                assert(cand_ids@[cand_ids@.len() - 1]@ == m);
                            } else {
                                let t = choose|t: int|
                                    0 <= t < cand_entry.len() && (#[trigger] cand_entry[t])@
                                        == m;
                                assert(cand_ids@[t]@ == m);
                            }
                        }
                        assert forall|k: int, m: Seq<char>|
                            0 <= k < ci && #[trigger] in_scan(sets0, aw[k].0, m) implies exists|
                            t: int,
                        | 0 <= t < cand_ids@.len() && (#[trigger] cand_ids@[t])@ == m by {
                            let t = choose|t: int|
                                0 <= t < cand_entry.len() && (#[trigger] cand_entry[t])@ == m;
                            assert(cand_ids@[t]@ == m);
                        }
                    }
                } else {
                    proof {
                        assert(cand_ids@[sk as int]@ == id@);
                        assert(cand_ids@ == cand_entry);
                        assert(found@ == found_entry);
                        assert forall|m: Seq<char>|
                            #[trigger] in_scan(sets0, aw[ci as int].0, m) && rev_rank(e, m) < wi
                                + 1 implies exists|t: int|
                            0 <= t < cand_ids@.len() && (#[trigger] cand_ids@[t])@ == m by {
                            assert(e.contains(m));
                            let io2 = e.index_of(m);
                            assert(0 <= io2 < e.len() && e[io2] == m) by {
                                let w = choose|w: int| 0 <= w < e.len() && e[w] == m;
                                assert(e[w] == m);
                            }
                            if rev_rank(e, m) == wi {
                                assert(io2 == e.len() - 1 - wi);
                                assert(m == id@);
                                assert(cand_ids@[sk as int]@ == m);
                            }
                        }
                    }
                }
                wi = wi + 1;
            }
            proof {
                assert forall|t: int|
                    0 <= t < cand_ids@.len() && qualifies(
                        aw,
                        sets0,
                        (#[trigger] cand_ids@[t])@,
                        min_intersection,
                    ) implies exists|j: int|
                    0 <= j < found@.len() && (#[trigger] found@[j]).memory_id@ == cand_ids@[
                        t
                    ]@ by {
                    let j = choose|j: int|
                        0 <= j < found@.len() && (#[trigger] found@[j]).memory_id@ == cand_ids@[
                            t
                        ]@;
                    assert(found@[j].memory_id@ == cand_ids@[t]@);
                }
                assert forall|j: int| 0 <= j < found@.len() implies exists|t: int|
                    0 <= t < cand_ids@.len() && cand_ids@[t]@ == (#[trigger] found@[
                        j
                    ]).memory_id@ by {
                    let t = choose|t: int|
                        0 <= t < cand_ids@.len() && cand_ids@[t]@ == (#[trigger] found@[
                            j
                        ]).memory_id@;
                    assert(cand_ids@[t]@ == found@[j].memory_id@);
                }
            }
            proof {
                assert forall|k: int, m: Seq<char>|
                    0 <= k < ci + 1 && #[trigger] in_scan(sets0, aw[k].0, m) implies exists|
                    t: int,
                | 0 <= t < cand_ids@.len() && (#[trigger] cand_ids@[t])@ == m by {
                    if k == ci {
                        assert(rev_rank(e, m) < window@.len()) by {
                            let io = e.index_of(m);
                            assert(0 <= io < e.len() && e[io] == m);
                        }
                    }
                }
            }
            ci = ci + 1;
        }
        proof {
            assert forall|m: Seq<char>|
                #[trigger] is_candidate(aw, sets0, m) && qualifies(
                    aw,
                    sets0,
                    m,
                    min_intersection,
                ) implies exists|j: int|
                0 <= j < found@.len() && (#[trigger] found@[j]).memory_id@ == m by {
                let i = choose|i: int|
                    0 <= i < aw.len() && sets0.contains_key((#[trigger] aw[i]).0) && sets0[
                        aw[i].0
                    ].contains(m) && rev_rank(sets0[aw[i].0], m) < MAX_DRIVER_SCAN;
                assert(in_scan(sets0, aw[i].0, m));
                let t = choose|t: int|
                    0 <= t < cand_ids@.len() && (#[trigger] cand_ids@[t])@ == m;
                let j = choose|j: int|
                    0 <= j < found@.len() && (#[trigger] found@[j]).memory_id@ == cand_ids@[t]@;
                assert(found@[j].memory_id@ == m);
            }
        }
        // reinforce the qualifying candidates before ranking, as asked
        if auto_reinforce {
            let mut just: Vec<String> = Vec::new();
            let mut t: usize = 0;
            while t < active.len()
                invariant
                    t <= active@.len(),
                    aw == aw_of(active@),
                    just@.len() == t,
                    forall|j: int| 0 <= j < t ==> (#[trigger] just@[j])@ == aw[j].0,
                decreases active@.len() - t,
            {
                just.push(active[t].0.clone());
                t = t + 1;
            }
            let mut k: usize = 0;
            proof {
                assert(state_evolved(mems0, sets0, self.mems(), self.sets()));
            }
            while k < found.len()
                invariant
                    k <= found@.len(),
                    self.wf(),
                    state_evolved(mems0, sets0, self.mems(), self.sets()),
                    aw == aw_of(active@),
                    just@.len() == aw.len(),
                    forall|j: int| 0 <= j < just@.len() ==> (#[trigger] just@[j])@ == aw[j].0,
                    forall|j: int|
                        0 <= j < aw.len() ==> sets0.contains_key((#[trigger] aw[j]).0) && cue_ok(
                            aw[j].0,
                        ),
                    forall|j: int|
                        0 <= j < found@.len() ==> mems0.contains_key(
                            (#[trigger] found@[j]).memory_id@,
                        ),
                    forall|i: int, j: int|
                        0 <= i < j < found@.len() ==> found@[i].memory_id@ != found@[j].memory_id@,
                    forall|j: int|
                        0 <= j < k ==> self.mems()[(#[trigger] found@[j]).memory_id@]
                            == mem_after_touch(mems0[found@[j].memory_id@], now),
                    forall|id: Seq<char>|
                        #[trigger] mems0.contains_key(id) && (forall|j: int|
                            0 <= j < k ==> (#[trigger] found@[j]).memory_id@ != id)
                            ==> self.mems()[id] == mems0[id],
                    forall|c: Seq<char>|
                        #[trigger] sets0.contains_key(c) && !aw_mentions(aw, c)
                            ==> self.sets()[c] == sets0[c],
                decreases found@.len() - k,
            {
                let ghost mems_b = self.mems();
                let ghost sets_b = self.sets();
                let copy = clone_cues(&just);
                let ghost target = found@[k as int].memory_id@;
                proof {
                    assert(mems_b.dom() == mems0.dom());
                    assert(mems_b.contains_key(target));
                }
                self.reinforce_memory(found[k].memory_id.as_str(), copy, now);
                proof {
                    let jv = just@.map_values(|s: String| s@);
                    let cc = canon_cues_spec(jv);
                    lemma_dedup_props(
                        jv.map_values(|c: Seq<char>| cue_canon_spec(c)).filter(
                            |c: Seq<char>| c.len() > 0,
                        ),
                    );
                    assert(jv.map_values(|c: Seq<char>| cue_canon_spec(c)).filter(
                        |c: Seq<char>| c.len() > 0,
                    ) =~= jv.map_values(|c: Seq<char>| cue_canon_spec(c)).filter(
                        |c: Seq<char>| c.len() > 0,
                    ));
                    assert forall|j: int| 0 <= j < cc.len() implies sets_b.contains_key(
                        #[trigger] cc[j],
                    ) && aw_mentions(aw, cc[j]) by {
                        assert(cc.contains(cc[j]));
                        let fm = jv.map_values(|c: Seq<char>| cue_canon_spec(c)).filter(
                            |c: Seq<char>| c.len() > 0,
                        );
                        assert(fm.contains(cc[j]));
                        lemma_filter_elem(
                            jv.map_values(|c: Seq<char>| cue_canon_spec(c)),
                            |c: Seq<char>| c.len() > 0,
                            cc[j],
                        );
                        let mapped = jv.map_values(|c: Seq<char>| cue_canon_spec(c));
                        let u = choose|u: int|
                            0 <= u < mapped.len() && #[trigger] mapped[u] == cc[j];
                        assert(cue_canon_spec(jv[u]) == cc[j]);
                        assert(jv[u] == aw[u].0);
                        assert(cue_ok(aw[u].0));
                        assert(cue_canon_spec(jv[u]) == jv[u]);
                        assert(aw[u].0 == cc[j]);
                        assert(sets0.contains_key(cc[j]));
                        assert(sets_b.dom() == sets0.dom());
                    }
                    lemma_dedup_props(
                        jv.map_values(|c: Seq<char>| cue_canon_spec(c)).filter(
                            |c: Seq<char>| c.len() > 0,
                        ),
                    );
                    lemma_evolved_step(mems0, sets0, mems_b, sets_b, target, cc, now);
                    lemma_index_move_all_props(sets_b, cc, target);
                    // the touched entry was still at its starting value
                    assert forall|j: int| 0 <= j < k implies (#[trigger] found@[j]).memory_id@
                        != target by {
                        assert(found@[j].memory_id@ != found@[k as int].memory_id@);
                    }
                    assert(mems_b[target] == mems0[target]);
                    assert(self.mems() == mems_b.insert(
                        target,
                        mem_after_touch(mems_b[target], now),
                    ));
                    assert forall|j: int|
                        0 <= j < k + 1 implies self.mems()[(#[trigger] found@[j]).memory_id@]
                        == mem_after_touch(mems0[found@[j].memory_id@], now) by {
                        if j < k {
                            assert(found@[j].memory_id@ != target);
                            assert(self.mems()[found@[j].memory_id@] == mems_b[found@[
                                j
                            ].memory_id@]);
                        }
                    }
                    assert forall|id: Seq<char>|
                        #[trigger] mems0.contains_key(id) && (forall|j: int|
                            0 <= j < k + 1 ==> (#[trigger] found@[j]).memory_id@
                                != id) implies self.mems()[id] == mems0[id] by {
                        assert(found@[k as int].memory_id@ != id);
                        assert(forall|j: int|
                            0 <= j < k ==> (#[trigger] found@[j]).memory_id@ != id);
                        assert(self.mems()[id] == mems_b[id]);
                    }
                    assert forall|c: Seq<char>|
                        #[trigger] sets0.contains_key(c) && !aw_mentions(
                            aw,
                            c,
                        ) implies self.sets()[c] == sets0[c] by {
                        assert(!cc.contains(c)) by {
                            if cc.contains(c) {
                                let j = choose|j: int| 0 <= j < cc.len() && cc[j] == c;
                                assert(aw_mentions(aw, cc[j]));
                            }
                        }
                        assert(sets_b.contains_key(c));
                        assert(self.sets()[c] == sets_b[c]);
                    }
                }
                k = k + 1;
            }
            proof {
                assert forall|id: Seq<char>| #[trigger] mems0.contains_key(id) implies self.mems()[
                    id
                ] == (if is_candidate(aw, sets0, id) && qualifies(aw, sets0, id, min_intersection) {
                    mem_after_touch(mems0[id], now)
                } else {
                    mems0[id]
                }) by {
                    if is_candidate(aw, sets0, id) && qualifies(aw, sets0, id, min_intersection) {
                        let j = choose|j: int|
                            0 <= j < found@.len() && (#[trigger] found@[j]).memory_id@ == id;
                        assert(self.mems()[found@[j].memory_id@] == mem_after_touch(
                            mems0[found@[j].memory_id@],
                            now,
                        ));
                    } else {
                        assert forall|j: int| 0 <= j < found@.len() implies (#[trigger] found@[
                            j
                        ]).memory_id@ != id by {
                            if found@[j].memory_id@ == id {
                                assert(valid_result(found@[j], aw, sets0, mems0, explain));
                                assert(is_candidate(aw, sets0, id));
                                assert(qualifies(aw, sets0, id, min_intersection));
                            }
                        }
                    }
                }
                assert(reinforced_exactly(
                    mems0,
                    sets0,
                    self.mems(),
                    self.sets(),
                    aw,
                    min_intersection,
                    now,
                ));
            }
        }
        // rank by score, descending, and keep the top `limit`
        proof {
            assert forall|m: Seq<char>|
                #[trigger] is_candidate(aw, sets0, m) && qualifies(
                    aw,
                    sets0,
                    m,
                    min_intersection,
                ) implies exists|j: int|
                0 <= j < found@.len() && (#[trigger] found@[j]).memory_id@ == m by {
                let i = choose|i: int|
                    0 <= i < aw.len() && sets0.contains_key((#[trigger] aw[i]).0) && sets0[
                        aw[i].0
                    ].contains(m) && rev_rank(sets0[aw[i].0], m) < MAX_DRIVER_SCAN;
                assert(in_scan(sets0, aw[i].0, m));
                let t = choose|t: int|
                    0 <= t < cand_ids@.len() && (#[trigger] cand_ids@[t])@ == m;
                let j = choose|j: int|
                    0 <= j < found@.len() && (#[trigger] found@[j]).memory_id@ == cand_ids@[t]@;
                assert(found@[j].memory_id@ == m);
            }
        }
        let mut pool = found;
        let mut out: Vec<RecallResult> = Vec::new();
        while pool.len() > 0 && out.len() < limit
            invariant
                out@.len() <= limit,
                forall|j: int|
                    0 <= j < out@.len() ==> valid_result(
                        #[trigger] out@[j],
                        aw,
                        sets0,
                        mems0,
                        explain,
                    ) && qualifies(aw, sets0, out@[j].memory_id@, min_intersection),
                forall|j: int|
                    0 <= j < pool@.len() ==> valid_result(
                        #[trigger] pool@[j],
                        aw,
                        sets0,
                        mems0,
                        explain,
                    ) && qualifies(aw, sets0, pool@[j].memory_id@, min_intersection),
                forall|i: int, j: int| 0 <= i < j < out@.len() ==> out@[i].score >= out@[j].score,
                forall|i: int, j: int|
                    0 <= i < out@.len() && 0 <= j < pool@.len() ==> out@[i].score
                        >= pool@[j].score,
                forall|i: int, j: int|
                    0 <= i < j < out@.len() ==> out@[i].memory_id@ != out@[j].memory_id@,
                forall|i: int, j: int|
                    0 <= i < j < pool@.len() ==> pool@[i].memory_id@ != pool@[j].memory_id@,
                forall|i: int, j: int|
                    0 <= i < out@.len() && 0 <= j < pool@.len() ==> out@[i].memory_id@ != pool@[
                        j
                    ].memory_id@,
                forall|m: Seq<char>|
                    #[trigger] is_candidate(aw, sets0, m) && qualifies(
                        aw,
                        sets0,
                        m,
                        min_intersection,
                    ) ==> (exists|j: int|
                        0 <= j < out@.len() && (#[trigger] out@[j]).memory_id@ == m) || (exists|
                        j: int,
                    |
                        0 <= j < pool@.len() && (#[trigger] pool@[j]).memory_id@ == m),
            decreases pool@.len(),
        {
            let mut best: usize = 0;
            let mut bi: usize = 1;
            while bi < pool.len()
                invariant
                    pool@.len() > 0,
                    best < bi <= pool@.len() || (best == 0 && bi <= pool@.len()),
                    best < pool@.len(),
                    forall|j: int| 0 <= j < bi ==> pool@[best as int].score >= (#[trigger] pool@[j]).score,
                decreases pool@.len() - bi,
            {
                if pool[bi].score > pool[best].score {
                    best = bi;
                }
                bi = bi + 1;
            }
            let ghost pool_before = pool@;
            let picked = pool.swap_remove(best);
            proof {
                assert(picked == pool_before[best as int]);
                assert(pool@ =~= pool_before.update(best as int, pool_before.last()).drop_last());
                assert forall|j: int| 0 <= j < pool@.len() implies (#[trigger] pool@[j]).score
                    <= picked.score by {
                    if j == best {
                        assert(pool@[j] == pool_before[pool_before.len() - 1]);
                    } else {
                        assert(pool@[j] == pool_before[j]);
                    }
                }
                assert forall|j: int| 0 <= j < pool@.len() implies exists|t: int|
                    0 <= t < pool_before.len() && pool_before[t] == #[trigger] pool@[j] by {
                    if j == best {
                        assert(pool_before[pool_before.len() - 1] == pool@[j]);
                    } else {
                        assert(pool_before[j] == pool@[j]);
                    }
                }
                assert forall|m: Seq<char>|
                    #[trigger] is_candidate(aw, sets0, m) && qualifies(
                        aw,
                        sets0,
                        m,
                        min_intersection,
                    ) implies (exists|j: int|
                    0 <= j < out@.len() + 1 && (#[trigger] out@.push(picked)[j]).memory_id@ == m)
                    || (exists|j: int|
                    0 <= j < pool@.len() && (#[trigger] pool@[j]).memory_id@ == m) by {
                    if exists|j: int|
                        0 <= j < pool_before.len() && (#[trigger] pool_before[j]).memory_id@
                            == m {
                        let j = choose|j: int|
                            0 <= j < pool_before.len() && (#[trigger] pool_before[j]).memory_id@
                                == m;
                        if j == best {
                            assert(out@.push(picked)[out@.len() as int].memory_id@ == m);
                        } else if j == pool_before.len() - 1 {
                            if best == pool_before.len() - 1 {
                                assert(out@.push(picked)[out@.len() as int].memory_id@ == m);
                            } else {
                                assert(pool@[best as int].memory_id@ == m);
                            }
                        } else {
                            assert(pool@[j].memory_id@ == m);
                        }
                    } else {
                        let j = choose|j: int|
                            0 <= j < out@.len() && (#[trigger] out@[j]).memory_id@ == m;
                        assert(out@.push(picked)[j].memory_id@ == m);
                    }
                }
            }
            out.push(picked);
        }
        proof {
            if out@.len() < limit {
                assert(pool@.len() == 0);
            }
            if out@.len() == limit && limit > 0 {
                assert forall|m: Seq<char>|
                    #[trigger] is_candidate(aw, sets0, m) && qualifies(
                        aw,
                        sets0,
                        m,
                        min_intersection,
                    ) && !(exists|j: int|
                        0 <= j < out@.len() && (#[trigger] out@[j]).memory_id@
                            == m) implies crate::scoring::score_spec(
                    matches_of(aw, sets0, m),
                    mems0[m].reinforcement_count as nat,
                ) <= out@.last().score by {
                    let j = choose|j: int|
                        0 <= j < pool@.len() && (#[trigger] pool@[j]).memory_id@ == m;
                    assert(valid_result(pool@[j], aw, sets0, mems0, explain));
                    assert(pool@[j].score == crate::scoring::score_spec(
                        matches_of(aw, sets0, m),
                        mems0[m].reinforcement_count as nat,
                    ));
                    assert(out@[out@.len() - 1].score >= pool@[j].score);
                }
            }
        }
        out
    }
}

} // verus!

verus! {

/// Unit weights for a plain cue list.
pub open spec fn unit_weights(qs: Seq<Seq<char>>) -> Seq<(Seq<char>, u64)> {
    qs.map_values(|c: Seq<char>| (c, SCALE))
}

impl CueMapEngine {
    /// Recall by plain cues: weighted recall with every weight one unit.
    pub fn recall(
        &mut self,
        query_cues: Vec<String>,
        limit: usize,
        auto_reinforce: bool,
        now: u64,
    ) -> (results: Vec<RecallResult>)
        requires
            old(self).wf(),
            query_cues@.len() <= 1000000,
        ensures
            final(self).wf(),
            recall_ok(
                results@,
                active_cues(
                    unit_weights(query_cues@.map_values(|s: String| s@)),
                    old(self).sets(),
                ),
                old(self).sets(),
                old(self).mems(),
                limit,
                None,
                false,
            ),
            !auto_reinforce ==> final(self).mems() == old(self).mems() && final(self).sets()
                == old(self).sets(),
            auto_reinforce ==> state_evolved(
                old(self).mems(),
                old(self).sets(),
                final(self).mems(),
                final(self).sets(),
            ),
            auto_reinforce ==> reinforced_exactly(
                old(self).mems(),
                old(self).sets(),
                final(self).mems(),
                final(self).sets(),
                active_cues(
                    unit_weights(query_cues@.map_values(|s: String| s@)),
                    old(self).sets(),
                ),
                None,
                now,
            ),
    {
        self.recall_with_min_intersection(query_cues, limit, auto_reinforce, None, now)
    }

    /// Recall by plain cues with a minimum-intersection floor.
    pub fn recall_with_min_intersection(
        &mut self,
        query_cues: Vec<String>,
        limit: usize,
        auto_reinforce: bool,
        min_intersection: Option<usize>,
        now: u64,
    ) -> (results: Vec<RecallResult>)
        requires
            old(self).wf(),
            query_cues@.len() <= 1000000,
        ensures
            final(self).wf(),
            recall_ok(
                results@,
                active_cues(
                    unit_weights(query_cues@.map_values(|s: String| s@)),
                    old(self).sets(),
                ),
                old(self).sets(),
                old(self).mems(),
                limit,
                min_intersection,
                false,
            ),
            !auto_reinforce ==> final(self).mems() == old(self).mems() && final(self).sets()
                == old(self).sets(),
            auto_reinforce ==> state_evolved(
                old(self).mems(),
                old(self).sets(),
                final(self).mems(),
                final(self).sets(),
            ),
            auto_reinforce ==> reinforced_exactly(
                old(self).mems(),
                old(self).sets(),
                final(self).mems(),
                final(self).sets(),
                active_cues(
                    unit_weights(query_cues@.map_values(|s: String| s@)),
                    old(self).sets(),
                ),
                min_intersection,
                now,
            ),
    {
        let mut weighted: Vec<(String, u64)> = Vec::new();
        let mut i: usize = 0;
        while i < query_cues.len()
            invariant
                i <= query_cues@.len(),
                weighted@.len() == i,
                forall|j: int|
                    0 <= j < i ==> (#[trigger] weighted@[j]).0@ == query_cues@[j]@ && weighted@[
                        j
                    ].1 == SCALE,
            decreases query_cues@.len() - i,
        {
            weighted.push((query_cues[i].clone(), SCALE));
            i = i + 1;
        }
        proof {
            assert(weighted@.map_values(|p: (String, u64)| (p.0@, p.1)) =~= unit_weights(
                query_cues@.map_values(|s: String| s@),
            ));
        }
        self.recall_weighted(weighted, limit, auto_reinforce, min_intersection, false, now)
    }
}

} // verus!

verus! {

impl CueMapEngine {
    /// Wrap the two stores directly (the snapshot rebuild proves the
    /// invariant separately).
    pub(crate) fn raw(
        memories: dashmap::DashMap<String, Memory>,
        cue_index: dashmap::DashMap<String, OrderedSet>,
    ) -> (r: Self)
        ensures
            r.mems() == ext::mem_entries(memories),
            r.sets() == ext::set_entries(cue_index),
    {
        CueMapEngine { memories, cue_index }
    }
}

} // verus!
