//! The base data structures: a stored memory and the ordered id set.
//!
//! The ordered set keeps unique memory ids in insertion order; the tail is
//! the most recent position. It is backed by indexmap's `IndexSet`, whose
//! operations the library trusts through the wrappers in `ext`.

use crate::ext;
use vstd::prelude::*;

verus! {

/// A stored content item. `metadata` maps attribute names to string
/// values; `cues` lists the canonical cues the memory is indexed under.
#[derive(Clone, Debug)]
pub struct Memory {
    pub id: String,
    pub content: String,
    pub created_at: u64,
    pub last_accessed: u64,
    pub reinforcement_count: u64,
    pub cues: Vec<String>,
    pub metadata: Vec<(String, String)>,
}

/// The mathematical content of a `Memory`: every string as its characters.
pub ghost struct MemView {
    pub id: Seq<char>,
    pub content: Seq<char>,
    pub created_at: u64,
    pub last_accessed: u64,
    pub reinforcement_count: u64,
    pub cues: Seq<Seq<char>>,
    pub metadata: Seq<(Seq<char>, Seq<char>)>,
}

impl View for Memory {
    type V = MemView;

    open spec fn view(&self) -> MemView {
        MemView {
            id: self.id@,
            content: self.content@,
            created_at: self.created_at,
            last_accessed: self.last_accessed,
            reinforcement_count: self.reinforcement_count,
            cues: self.cues@.map_values(|c: String| c@),
            metadata: self.metadata@.map_values(|kv: (String, String)| (kv.0@, kv.1@)),
        }
    }
}

impl Memory {
    /// A memory never reports an access before its creation.
    pub open spec fn wf(self) -> bool {
        self.created_at <= self.last_accessed
    }

    /// A fresh memory with the given id, created now, not yet reinforced
    /// and carrying no cues.
    pub fn new(id: String, content: String, metadata: Vec<(String, String)>, now: u64) -> (r:
        Memory)
        ensures
            r.id == id,
            r.content == content,
            r.metadata == metadata,
            r.created_at == now,
            r.last_accessed == now,
            r.reinforcement_count == 0,
            r.cues@ == Seq::<String>::empty(),
            r.wf(),
    {
        Memory {
            id,
            content,
            created_at: now,
            last_accessed: now,
            reinforcement_count: 0,
            cues: Vec::new(),
            metadata,
        }
    }

    /// Move the last-accessed stamp forward to `now` (never backward, so
    /// the stamp stays at or after the creation time).
    pub fn touch(&mut self, now: u64)
        requires
            old(self).wf(),
        ensures
            final(self).wf(),
            final(self).last_accessed == if now > old(self).last_accessed {
                now
            } else {
                old(self).last_accessed
            },
            final(self).id == old(self).id,
            final(self).content == old(self).content,
            final(self).created_at == old(self).created_at,
            final(self).reinforcement_count == old(self).reinforcement_count,
            final(self).cues == old(self).cues,
            final(self).metadata == old(self).metadata,
    {
        if now > self.last_accessed {
            self.last_accessed = now;
        }
    }
}

/// Removing a value from a duplicate-free sequence removes every trace of
/// it, keeps the order and membership of the rest, and keeps the sequence
/// duplicate-free.
pub proof fn lemma_remove_value<A>(s: Seq<A>, v: A)
    requires
        s.no_duplicates(),
    ensures
        s.remove_value(v).no_duplicates(),
        !s.remove_value(v).contains(v),
        forall|w: A| w != v ==> (s.remove_value(v).contains(w) <==> s.contains(w)),
        s.contains(v) ==> s.remove_value(v).len() == s.len() - 1,
        !s.contains(v) ==> s.remove_value(v) == s,
{
    s.index_of_first_ensures(v);
    if s.contains(v) {
        let i = s.index_of_first(v).unwrap();
        let t = s.remove(i);
        s.remove_ensures(i);
        assert forall|x: int, y: int| 0 <= x < y < t.len() implies t[x] != t[y] by {
            let sx: int = if x < i {
                x
            } else {
                x + 1
            };
            let sy: int = if y < i {
                y
            } else {
                y + 1
            };
            assert(t[x] == s[sx] && t[y] == s[sy]);
        }
        assert forall|j: int| 0 <= j < t.len() implies t[j] != v by {
            let sj: int = if j < i {
                j
            } else {
                j + 1
            };
            assert(t[j] == s[sj]);
        }
        assert forall|w: A| w != v && s.contains(w) implies t.contains(w) by {
            let j = choose|j: int| 0 <= j < s.len() && s[j] == w;
            if j < i {
                assert(t[j] == s[j]);
            } else {
                assert(j > i);
                assert(t[j - 1] == s[j]);
            }
        }
    }
}

/// The reposition of `add` and `move_to_end`: any earlier occurrence of
/// the id goes away and the id lands at the tail.
pub open spec fn seq_reposition(s: Seq<Seq<char>>, v: Seq<char>) -> Seq<Seq<char>> {
    s.remove_value(v).push(v)
}

/// An insertion-ordered set of memory ids with constant-time membership,
/// index-of and tail append; the tail is the most recent position.
#[derive(Clone, Debug)]
pub struct OrderedSet {
    items: indexmap::IndexSet<String>,
}

impl OrderedSet {
    /// The ids in insertion order, oldest first.
    pub closed spec fn elems(self) -> Seq<Seq<char>> {
        ext::iset_elems(self.items)
    }

    /// The set never holds an id twice.
    pub open spec fn wf(self) -> bool {
        self.elems().no_duplicates()
    }

    pub fn new() -> (r: Self)
        ensures
            r.elems() == Seq::<Seq<char>>::empty(),
            r.wf(),
    {
        OrderedSet { items: ext::iset_new() }
    }

    /// Add the id at the tail (the most recent position); an id already
    /// present is repositioned to the tail.
    pub fn add(&mut self, item: String)
        requires
            old(self).wf(),
        ensures
            final(self).wf(),
            final(self).elems() == seq_reposition(old(self).elems(), item@),
    {
        proof {
            lemma_remove_value(self.elems(), item@);
        }
        ext::iset_shift_remove(&mut self.items, item.as_str());
        ext::iset_insert(&mut self.items, item);
    }

    /// Move an id that is present to the tail; an absent id changes
    /// nothing.
    pub fn move_to_end(&mut self, item: &str)
        requires
            old(self).wf(),
        ensures
            final(self).wf(),
            final(self).elems() == if old(self).elems().contains(item@) {
                seq_reposition(old(self).elems(), item@)
            } else {
                old(self).elems()
            },
    {
        proof {
            lemma_remove_value(self.elems(), item@);
        }
        if ext::iset_shift_remove(&mut self.items, item) {
            let mut owned = String::new();
            owned.append(item);
            ext::iset_insert(&mut self.items, owned);
        }
    }

    /// Remove an id, keeping the order of the rest.
    pub fn remove(&mut self, item: &str) -> (r: bool)
        requires
            old(self).wf(),
        ensures
            final(self).wf(),
            r == old(self).elems().contains(item@),
            final(self).elems() == old(self).elems().remove_value(item@),
    {
        proof {
            lemma_remove_value(self.elems(), item@);
        }
        ext::iset_shift_remove(&mut self.items, item)
    }

    /// The position of an id in insertion order, if present.
    pub fn get_index_of(&self, item: &str) -> (r: Option<usize>)
        requires
            self.wf(),
        ensures
            match r {
                Some(i) => i < self.elems().len() && self.elems()[i as int] == item@,
                None => !self.elems().contains(item@),
            },
    {
        ext::iset_get_index_of(&self.items, item)
    }

    /// Whether the id is in the set.
    pub fn contains(&self, item: &str) -> (r: bool)
        requires
            self.wf(),
        ensures
            r == self.elems().contains(item@),
    {
        match ext::iset_get_index_of(&self.items, item) {
            Some(_) => true,
            None => false,
        }
    }

    /// The ids most recent first, up to `limit` of them (all of them when
    /// no limit is given).
    pub fn get_recent(&self, limit: Option<usize>) -> (r: Vec<String>)
        ensures
            r@.len() == match limit {
                Some(l) => if l < self.elems().len() {
                    l as nat
                } else {
                    self.elems().len()
                },
                None => self.elems().len(),
            },
            forall|i: int|
                0 <= i < r@.len() ==> r@[i]@ == self.elems()[self.elems().len() - 1 - i],
    {
        let all = ext::iset_to_vec(&self.items);
        let n = all.len();
        let take = match limit {
            Some(l) => if l < n {
                l
            } else {
                n
            },
            None => n,
        };
        let mut out: Vec<String> = Vec::new();
        let mut i: usize = 0;
        while i < take
            invariant
                take <= n,
                n == all@.len(),
                n == self.elems().len(),
                forall|j: int| 0 <= j < n ==> all@[j]@ == self.elems()[j],
                i <= take,
                out@.len() == i,
                forall|j: int| 0 <= j < i ==> out@[j]@ == self.elems()[n - 1 - j],
            decreases take - i,
        {
            out.push(all[n - 1 - i].clone());
            i = i + 1;
        }
        out
    }

    /// The ids most recent first as owned strings (the same contents as
    /// `get_recent`).
    pub fn get_recent_owned(&self, limit: Option<usize>) -> (r: Vec<String>)
        ensures
            r@.len() == match limit {
                Some(l) => if l < self.elems().len() {
                    l as nat
                } else {
                    self.elems().len()
                },
                None => self.elems().len(),
            },
            forall|i: int|
                0 <= i < r@.len() ==> r@[i]@ == self.elems()[self.elems().len() - 1 - i],
    {
        self.get_recent(limit)
    }

    pub fn len(&self) -> (r: usize)
        ensures
            r == self.elems().len(),
    {
        ext::iset_len(&self.items)
    }

    pub fn is_empty(&self) -> (r: bool)
        ensures
            r == (self.elems().len() == 0),
    {
        self.len() == 0
    }
}

} // verus!

verus! {

impl OrderedSet {
    /// The ids in insertion order (oldest first), as owned strings.
    pub fn to_vec(&self) -> (r: Vec<String>)
        ensures
            r@.len() == self.elems().len(),
            forall|i: int| 0 <= i < r@.len() ==> r@[i]@ == self.elems()[i],
    {
        crate::ext::iset_to_vec(&self.items)
    }
}

} // verus!

verus! {

impl Memory {
    /// A field-by-field copy with the same mathematical content.
    pub fn duplicate(&self) -> (r: Memory)
        ensures
            r@ == self@,
    {
        let mut cues: Vec<String> = Vec::new();
        let mut i: usize = 0;
        while i < self.cues.len()
            invariant
                i <= self.cues@.len(),
                cues@.len() == i,
                forall|j: int| 0 <= j < i ==> cues@[j] == self.cues@[j],
            decreases self.cues@.len() - i,
        {
            cues.push(self.cues[i].clone());
            i = i + 1;
        }
        let mut metadata: Vec<(String, String)> = Vec::new();
        let mut k: usize = 0;
        while k < self.metadata.len()
            invariant
                k <= self.metadata@.len(),
                metadata@.len() == k,
                forall|j: int| 0 <= j < k ==> metadata@[j] == self.metadata@[j],
            decreases self.metadata@.len() - k,
        {
            metadata.push((self.metadata[k].0.clone(), self.metadata[k].1.clone()));
            k = k + 1;
        }
        let r = Memory {
            id: self.id.clone(),
            content: self.content.clone(),
            created_at: self.created_at,
            last_accessed: self.last_accessed,
            reinforcement_count: self.reinforcement_count,
            cues,
            metadata,
        };
        proof {
            assert(r.cues@ =~= self.cues@);
            assert(r.metadata@ =~= self.metadata@);
            assert(r@ =~= self@);
        }
        r
    }
}

} // verus!
