//! The snapshot layer: a versioned binary image of a project's memory
//! store and cue index.
//!
//! Rebuilding an engine from its exported entries gives back exactly the
//! same stores (the round trip is proved at the state level); the byte
//! codec has an exact encoding specification, and decoding accepts only
//! byte strings that re-encode to themselves.

use crate::engine::CueMapEngine;
use crate::ext;
use crate::structures::Memory;
use crate::structures::MemView;
use crate::structures::OrderedSet;
use vstd::prelude::*;

verus! {

/// The snapshot format version this library writes.
pub const PERSISTENCE_VERSION: u32 = 1;

/// A snapshot: both stores flattened to entry lists (each ordered set as
/// its ids, oldest first).
pub struct PersistedState {
    pub version: u32,
    pub saved_at: u64,
    pub memories: Vec<(String, Memory)>,
    pub cue_index: Vec<(String, Vec<String>)>,
}

/// Whether the flattened index holds the id under the cue.
pub open spec fn cue_indexed(
    sv: Seq<(Seq<char>, Seq<Seq<char>>)>,
    c: Seq<char>,
    id: Seq<char>,
) -> bool {
    exists|u: int| 0 <= u < sv.len() && (#[trigger] sv[u]).0 == c && sv[u].1.contains(id)
}

/// Whether the flattened store holds the id with the cue attached.
pub open spec fn id_stored(
    mv: Seq<(Seq<char>, MemView)>,
    id: Seq<char>,
    c: Seq<char>,
) -> bool {
    exists|w: int| 0 <= w < mv.len() && (#[trigger] mv[w]).0 == id && mv[w].1.cues.contains(c)
}

/// What a loadable snapshot looks like: distinct memory ids, each memory
/// recording its own id with canonical duplicate-free cues and ordered
/// stamps; distinct cues with duplicate-free id lists; and the lists and
/// cue sets consistent in both directions.
pub open spec fn entries_consistent(
    mems: Seq<(Seq<char>, MemView)>,
    sets: Seq<(Seq<char>, Seq<Seq<char>>)>,
) -> bool {
    &&& forall|i: int, j: int| 0 <= i < j < mems.len() ==> mems[i].0 != mems[j].0
    &&& forall|i: int, j: int| 0 <= i < j < sets.len() ==> sets[i].0 != sets[j].0
    &&& forall|i: int|
        0 <= i < mems.len() ==> {
            let m = (#[trigger] mems[i]).1;
            &&& m.id == mems[i].0
            &&& m.created_at <= m.last_accessed
            &&& m.cues.no_duplicates()
            &&& forall|j: int| 0 <= j < m.cues.len() ==> crate::engine::cue_ok(#[trigger] m.cues[j])
        }
    &&& forall|i: int| 0 <= i < sets.len() ==> (#[trigger] sets[i]).1.no_duplicates()
    &&& forall|i: int, j: int|
        0 <= i < mems.len() && 0 <= j < mems[i].1.cues.len() ==> cue_indexed(
            sets,
            #[trigger] mems[i].1.cues[j],
            mems[i].0,
        )
    &&& forall|t: int, x: int|
        #![trigger sets[t].1[x]]
        0 <= t < sets.len() && 0 <= x < sets[t].1.len() ==> id_stored(
            mems,
            sets[t].1[x],
            sets[t].0,
        )
}

/// The memory map a snapshot's entries describe.
pub open spec fn mems_map_of(mems: Seq<(Seq<char>, MemView)>) -> Map<Seq<char>, MemView>
    decreases mems.len(),
{
    if mems.len() == 0 {
        Map::empty()
    } else {
        mems_map_of(mems.drop_last()).insert(mems.last().0, mems.last().1)
    }
}

/// The cue index map a snapshot's entries describe.
pub open spec fn sets_map_of(sets: Seq<(Seq<char>, Seq<Seq<char>>)>) -> Map<
    Seq<char>,
    Seq<Seq<char>>,
>
    decreases sets.len(),
{
    if sets.len() == 0 {
        Map::empty()
    } else {
        sets_map_of(sets.drop_last()).insert(sets.last().0, sets.last().1)
    }
}

/// Membership in the entry-described maps.
#[verifier::rlimit(60)]
pub proof fn lemma_mems_map_of(mems: Seq<(Seq<char>, MemView)>)
    ensures
        forall|k: Seq<char>|
            #[trigger] mems_map_of(mems).contains_key(k) <==> exists|i: int|
                0 <= i < mems.len() && (#[trigger] mems[i]).0 == k,
        forall|i: int|
            0 <= i < mems.len() && (forall|j: int| i < j < mems.len() ==> mems[j].0 != mems[i].0)
                ==> mems_map_of(mems).contains_key((#[trigger] mems[i]).0) && mems_map_of(
                mems,
            )[mems[i].0] == mems[i].1,
    decreases mems.len(),
{
    if mems.len() > 0 {
        lemma_mems_map_of(mems.drop_last());
        assert forall|k: Seq<char>| #[trigger] mems_map_of(mems).contains_key(k) implies exists|
            i: int,
        | 0 <= i < mems.len() && (#[trigger] mems[i]).0 == k by {
            if k != mems.last().0 {
                assert(mems_map_of(mems.drop_last()).contains_key(k));
                let i = choose|i: int|
                    0 <= i < mems.drop_last().len() && (#[trigger] mems.drop_last()[i]).0 == k;
                assert(mems.drop_last()[i] == mems[i]);
                assert(mems[i].0 == k);
            } else {
                assert(mems[mems.len() - 1].0 == k);
            }
        }
        assert forall|k: Seq<char>|
            (exists|i: int| 0 <= i < mems.len() && (#[trigger] mems[i]).0 == k) implies
            #[trigger] mems_map_of(mems).contains_key(k) by {
            let i = choose|i: int| 0 <= i < mems.len() && (#[trigger] mems[i]).0 == k;
            if i < mems.len() - 1 {
                assert(mems.drop_last()[i].0 == k);
                assert(exists|t: int|
                    0 <= t < mems.drop_last().len() && (#[trigger] mems.drop_last()[t]).0 == k);
                assert(mems_map_of(mems.drop_last()).contains_key(k));
            } else {
                assert(mems.last().0 == k);
            }
        }
        assert forall|i: int|
            0 <= i < mems.len() && (forall|j: int|
                i < j < mems.len() ==> mems[j].0 != mems[i].0) implies mems_map_of(
            mems,
        ).contains_key((#[trigger] mems[i]).0) && mems_map_of(mems)[mems[i].0] == mems[i].1 by {
            if i < mems.len() - 1 {
                assert(mems[mems.len() - 1].0 != mems[i].0);
                assert(forall|j: int|
                    i < j < mems.drop_last().len() ==> mems.drop_last()[j].0 != mems.drop_last()[
                        i
                    ].0);
                assert(mems.drop_last()[i] == mems[i]);
            }
        }
    }
}

/// Membership in the entry-described cue maps.
#[verifier::rlimit(60)]
pub proof fn lemma_sets_map_of(sets: Seq<(Seq<char>, Seq<Seq<char>>)>)
    ensures
        forall|k: Seq<char>|
            #[trigger] sets_map_of(sets).contains_key(k) <==> exists|i: int|
                0 <= i < sets.len() && (#[trigger] sets[i]).0 == k,
        forall|i: int|
            0 <= i < sets.len() && (forall|j: int| i < j < sets.len() ==> sets[j].0 != sets[i].0)
                ==> sets_map_of(sets).contains_key((#[trigger] sets[i]).0) && sets_map_of(
                sets,
            )[sets[i].0] == sets[i].1,
    decreases sets.len(),
{
    if sets.len() > 0 {
        lemma_sets_map_of(sets.drop_last());
        assert forall|k: Seq<char>| #[trigger] sets_map_of(sets).contains_key(k) implies exists|
            i: int,
        | 0 <= i < sets.len() && (#[trigger] sets[i]).0 == k by {
            if k != sets.last().0 {
                assert(sets_map_of(sets.drop_last()).contains_key(k));
                let i = choose|i: int|
                    0 <= i < sets.drop_last().len() && (#[trigger] sets.drop_last()[i]).0 == k;
                assert(sets.drop_last()[i] == sets[i]);
                assert(sets[i].0 == k);
            } else {
                assert(sets[sets.len() - 1].0 == k);
            }
        }
        assert forall|k: Seq<char>|
            (exists|i: int| 0 <= i < sets.len() && (#[trigger] sets[i]).0 == k) implies
            #[trigger] sets_map_of(sets).contains_key(k) by {
            let i = choose|i: int| 0 <= i < sets.len() && (#[trigger] sets[i]).0 == k;
            if i < sets.len() - 1 {
                assert(sets.drop_last()[i].0 == k);
                assert(exists|t: int|
                    0 <= t < sets.drop_last().len() && (#[trigger] sets.drop_last()[t]).0 == k);
                assert(sets_map_of(sets.drop_last()).contains_key(k));
            } else {
                assert(sets.last().0 == k);
            }
        }
        assert forall|i: int|
            0 <= i < sets.len() && (forall|j: int|
                i < j < sets.len() ==> sets[j].0 != sets[i].0) implies sets_map_of(
            sets,
        ).contains_key((#[trigger] sets[i]).0) && sets_map_of(sets)[sets[i].0] == sets[i].1 by {
            if i < sets.len() - 1 {
                assert(sets[sets.len() - 1].0 != sets[i].0);
                assert(forall|j: int|
                    i < j < sets.drop_last().len() ==> sets.drop_last()[j].0 != sets.drop_last()[
                        i
                    ].0);
                assert(sets.drop_last()[i] == sets[i]);
            }
        }
    }
}

impl CueMapEngine {
    /// Rebuild an engine from snapshot entries: the stores hold exactly
    /// the entry-described maps, with each ordered set in list order.
    pub fn from_entries(
        mems: Vec<(String, Memory)>,
        cue_index: Vec<(String, Vec<String>)>,
    ) -> (r: Self)
        requires
            entries_consistent(
                mems@.map_values(|e: (String, Memory)| (e.0@, e.1@)),
                cue_index@.map_values(
                    |e: (String, Vec<String>)| (e.0@, e.1@.map_values(|s: String| s@)),
                ),
            ),
        ensures
            r.wf(),
            r.mems() == mems_map_of(mems@.map_values(|e: (String, Memory)| (e.0@, e.1@))),
            r.sets() == sets_map_of(
                cue_index@.map_values(
                    |e: (String, Vec<String>)| (e.0@, e.1@.map_values(|s: String| s@)),
                ),
            ),
    {
        let ghost mv = mems@.map_values(|e: (String, Memory)| (e.0@, e.1@));
        let ghost sv = cue_index@.map_values(
            |e: (String, Vec<String>)| (e.0@, e.1@.map_values(|s: String| s@)),
        );
        let mut memories = ext::dmm_new();
        let mut i: usize = 0;
        while i < mems.len()
            invariant
                i <= mems@.len(),
                mv == mems@.map_values(|e: (String, Memory)| (e.0@, e.1@)),
                ext::mem_entries(memories) == mems_map_of(mv.take(i as int)),
            decreases mems@.len() - i,
        {
            proof {
                assert(mv.take(i + 1).drop_last() =~= mv.take(i as int));
            }
            let (id, mem) = (mems[i].0.clone(), mems[i].1.duplicate());
            let ghost before = ext::mem_entries(memories);
            ext::dmm_insert(&mut memories, id, mem);
            proof {
                assert(mems@[i as int].1@ == mv[i as int].1);
                assert(ext::mem_entries(memories) =~= mems_map_of(mv.take(i + 1)));
            }
            i = i + 1;
        }
        proof {
            assert(mv.take(mems@.len() as int) =~= mv);
        }
        let mut index = ext::dms_new();
        let mut j: usize = 0;
        while j < cue_index.len()
            invariant
                j <= cue_index@.len(),
                sv == cue_index@.map_values(
                    |e: (String, Vec<String>)| (e.0@, e.1@.map_values(|s: String| s@)),
                ),
                forall|t: int| 0 <= t < sv.len() ==> (#[trigger] sv[t]).1.no_duplicates(),
                ext::set_entries(index) == sets_map_of(sv.take(j as int)),
            decreases cue_index@.len() - j,
        {
            proof {
                assert(sv.take(j + 1).drop_last() =~= sv.take(j as int));
            }
            let key = cue_index[j].0.clone();
            let ids = &cue_index[j].1;
            let mut os = OrderedSet::new();
            let mut t: usize = 0;
            while t < ids.len()
                invariant
                    t <= ids@.len(),
                    j < cue_index@.len(),
                    sv == cue_index@.map_values(
                        |e: (String, Vec<String>)| (e.0@, e.1@.map_values(|s: String| s@)),
                    ),
                    ids@.map_values(|s: String| s@) == sv[j as int].1,
                    sv[j as int].1.no_duplicates(),
                    os.wf(),
                    os.elems() == sv[j as int].1.take(t as int),
                decreases ids@.len() - t,
            {
                proof {
                    let full = sv[j as int].1;
                    assert(!full.take(t as int).contains(full[t as int])) by {
                        if full.take(t as int).contains(full[t as int]) {
                            let w = choose|w: int|
                                0 <= w < t && full.take(t as int)[w] == full[t as int];
                            assert(full[w] == full[t as int]);
                        }
                    }
                    crate::structures::lemma_remove_value(os.elems(), full[t as int]);
                    assert(full.take(t + 1) =~= full.take(t as int).push(full[t as int]));
                }
                os.add(ids[t].clone());
                t = t + 1;
            }
            proof {
                assert(sv[j as int].1.take(ids@.len() as int) =~= sv[j as int].1);
            }
            ext::dms_insert(&mut index, key, os);
            proof {
                assert(ext::set_entries(index) =~= sets_map_of(sv.take(j + 1)));
            }
            j = j + 1;
        }
        proof {
            assert(sv.take(cue_index@.len() as int) =~= sv);
        }
        let r = Self::assemble(memories, index);
        proof {
            lemma_mems_map_of(mv);
            lemma_sets_map_of(sv);
            let rm = mems_map_of(mv);
            let rs = sets_map_of(sv);
            assert forall|id: Seq<char>| #[trigger] rm.contains_key(id) implies {
                let m = rm[id];
                &&& m.id == id
                &&& m.created_at <= m.last_accessed
                &&& m.cues.no_duplicates()
                &&& forall|x: int| 0 <= x < m.cues.len() ==> crate::engine::cue_ok(#[trigger] m.cues[x])
            } by {
                let i = choose|i: int| 0 <= i < mv.len() && (#[trigger] mv[i]).0 == id;
                let li = last_index_mem(mv, id);
                assert(rm[id] == mv[li].1);
            }
            assert forall|c: Seq<char>| #[trigger] rs.contains_key(c) implies
                rs[c].no_duplicates() by {
                let li = last_index_set(sv, c);
                assert(rs[c] == sv[li].1);
            }
            assert forall|id: Seq<char>, c: Seq<char>|
                rm.contains_key(id) && #[trigger] rm[id].cues.contains(c) implies
                rs.contains_key(c) && rs[c].contains(id) by {
                let li = last_index_mem(mv, id);
                assert(rm[id] == mv[li].1);
                let x = choose|x: int| 0 <= x < mv[li].1.cues.len() && mv[li].1.cues[x] == c;
                let t = choose|t: int|
                    0 <= t < sv.len() && (#[trigger] sv[t]).0 == mv[li].1.cues[x]
                        && sv[t].1.contains(mv[li].0);
                let lt = last_index_set(sv, c);
                assert(sv[lt].0 == sv[t].0);
                assert(lt == t);
                assert(rs[c] == sv[lt].1);
            }
            assert forall|c: Seq<char>, id: Seq<char>|
                rs.contains_key(c) && #[trigger] rs[c].contains(id) implies rm.contains_key(id)
                    && rm[id].cues.contains(c) by {
                let lt = last_index_set(sv, c);
                assert(rs[c] == sv[lt].1);
                let x = choose|x: int| 0 <= x < sv[lt].1.len() && sv[lt].1[x] == id;
                let i = choose|i: int|
                    0 <= i < mv.len() && (#[trigger] mv[i]).0 == sv[lt].1[x] && mv[
                        i
                    ].1.cues.contains(sv[lt].0);
                let lm = last_index_mem(mv, id);
                assert(lm == i);
                assert(rm[id] == mv[lm].1);
            }
            assert(crate::engine::wf_maps(rm, rs));
        }
        r
    }

    /// Wrap rebuilt stores as an engine (the caller proves consistency).
    fn assemble(
        memories: dashmap::DashMap<String, Memory>,
        cue_index: dashmap::DashMap<String, OrderedSet>,
    ) -> (r: Self)
        ensures
            r.mems() == ext::mem_entries(memories),
            r.sets() == ext::set_entries(cue_index),
    {
        CueMapEngine::raw(memories, cue_index)
    }
}

/// The only index with the given memory id, under distinct ids.
pub open spec fn last_index_mem(mems: Seq<(Seq<char>, MemView)>, id: Seq<char>) -> int {
    choose|i: int| 0 <= i < mems.len() && (#[trigger] mems[i]).0 == id
}

/// The only index with the given cue, under distinct cues.
pub open spec fn last_index_set(sets: Seq<(Seq<char>, Seq<Seq<char>>)>, c: Seq<char>) -> int {
    choose|i: int| 0 <= i < sets.len() && (#[trigger] sets[i]).0 == c
}

/// Where a project's snapshot and its temporary sibling live under a data
/// directory.
pub struct PersistenceManager {
    pub data_dir: String,
    pub snapshot_interval_secs: u64,
}

impl PersistenceManager {
    /// A manager for the given directory and interval.
    pub fn new(data_dir: String, snapshot_interval_secs: u64) -> (r: Self)
        ensures
            r.data_dir == data_dir,
            r.snapshot_interval_secs == snapshot_interval_secs,
    {
        PersistenceManager { data_dir, snapshot_interval_secs }
    }

    /// The snapshot file's path.
    pub fn snapshot_path(&self) -> (r: String)
        ensures
            r@ == self.data_dir@ + "/cuemap.bin"@,
    {
        let mut s = String::new();
        s.append(self.data_dir.as_str());
        s.append("/cuemap.bin");
        s
    }

    /// The temporary file the snapshot is written to before the rename.
    pub fn temp_snapshot_path(&self) -> (r: String)
        ensures
            r@ == self.data_dir@ + "/cuemap.bin.tmp"@,
    {
        let mut s = String::new();
        s.append(self.data_dir.as_str());
        s.append("/cuemap.bin.tmp");
        s
    }
}

} // verus!

verus! {

/// The four little-endian bytes of a word.
pub open spec fn u32_le_spec(v: u32) -> Seq<u8> {
    seq![
        (v & 0xff) as u8,
        ((v >> 8) & 0xff) as u8,
        ((v >> 16) & 0xff) as u8,
        ((v >> 24) & 0xff) as u8,
    ]
}

/// The eight little-endian bytes of a word.
pub open spec fn u64_le_spec(v: u64) -> Seq<u8> {
    seq![
        (v & 0xff) as u8,
        ((v >> 8) & 0xff) as u8,
        ((v >> 16) & 0xff) as u8,
        ((v >> 24) & 0xff) as u8,
        ((v >> 32) & 0xff) as u8,
        ((v >> 40) & 0xff) as u8,
        ((v >> 48) & 0xff) as u8,
        ((v >> 56) & 0xff) as u8,
    ]
}

/// A string on the wire: its UTF-8 length, then its UTF-8 bytes.
pub open spec fn enc_str_spec(s: Seq<char>) -> Seq<u8> {
    u64_le_spec(vstd::utf8::encode_utf8(s).len() as u64) + vstd::utf8::encode_utf8(s)
}

/// A string list on the wire, in order.
pub open spec fn enc_strs_spec(ss: Seq<Seq<char>>) -> Seq<u8>
    decreases ss.len(),
{
    if ss.len() == 0 {
        Seq::empty()
    } else {
        enc_strs_spec(ss.drop_last()) + enc_str_spec(ss.last())
    }
}

/// A key-value list on the wire, in order.
pub open spec fn enc_pairs_spec(ps: Seq<(Seq<char>, Seq<char>)>) -> Seq<u8>
    decreases ps.len(),
{
    if ps.len() == 0 {
        Seq::empty()
    } else {
        enc_pairs_spec(ps.drop_last()) + enc_str_spec(ps.last().0) + enc_str_spec(ps.last().1)
    }
}

/// One memory entry on the wire: id, content, the three stamps, then the
/// counted cue and metadata lists.
pub open spec fn enc_mem_spec(id: Seq<char>, m: MemView) -> Seq<u8> {
    enc_str_spec(id) + enc_str_spec(m.content) + u64_le_spec(m.created_at) + u64_le_spec(
        m.last_accessed,
    ) + u64_le_spec(m.reinforcement_count) + u64_le_spec(m.cues.len() as u64) + enc_strs_spec(
        m.cues,
    ) + u64_le_spec(m.metadata.len() as u64) + enc_pairs_spec(m.metadata)
}

/// The memory entries on the wire, in order.
pub open spec fn enc_mems_spec(ms: Seq<(String, Memory)>) -> Seq<u8>
    decreases ms.len(),
{
    if ms.len() == 0 {
        Seq::empty()
    } else {
        enc_mems_spec(ms.drop_last()) + enc_mem_spec(ms.last().0@, ms.last().1@)
    }
}

/// One cue entry on the wire: the cue, then its counted id list.
pub open spec fn enc_set_spec(cue: Seq<char>, ids: Seq<Seq<char>>) -> Seq<u8> {
    enc_str_spec(cue) + u64_le_spec(ids.len() as u64) + enc_strs_spec(ids)
}

/// The cue entries on the wire, in order.
pub open spec fn enc_sets_spec(es: Seq<(String, Vec<String>)>) -> Seq<u8>
    decreases es.len(),
{
    if es.len() == 0 {
        Seq::empty()
    } else {
        enc_sets_spec(es.drop_last()) + enc_set_spec(
            es.last().0@,
            es.last().1@.map_values(|s: String| s@),
        )
    }
}

/// The whole snapshot on the wire: version, stamp, then the two counted
/// entry lists.
pub open spec fn encode_spec(s: PersistedState) -> Seq<u8> {
    u32_le_spec(s.version) + u64_le_spec(s.saved_at) + u64_le_spec(s.memories@.len() as u64)
        + enc_mems_spec(s.memories@) + u64_le_spec(s.cue_index@.len() as u64) + enc_sets_spec(
        s.cue_index@,
    )
}

/// Append a word's little-endian bytes.
fn put_u32(out: &mut Vec<u8>, v: u32)
    ensures
        final(out)@ == old(out)@ + u32_le_spec(v),
{
    out.push((v & 0xff) as u8);
    out.push(((v >> 8) & 0xff) as u8);
    out.push(((v >> 16) & 0xff) as u8);
    out.push(((v >> 24) & 0xff) as u8);
    proof {
        assert(out@ =~= old(out)@ + u32_le_spec(v));
    }
}

/// Append a word's little-endian bytes.
fn put_u64(out: &mut Vec<u8>, v: u64)
    ensures
        final(out)@ == old(out)@ + u64_le_spec(v),
{
    out.push((v & 0xff) as u8);
    out.push(((v >> 8) & 0xff) as u8);
    out.push(((v >> 16) & 0xff) as u8);
    out.push(((v >> 24) & 0xff) as u8);
    out.push(((v >> 32) & 0xff) as u8);
    out.push(((v >> 40) & 0xff) as u8);
    out.push(((v >> 48) & 0xff) as u8);
    out.push(((v >> 56) & 0xff) as u8);
    proof {
        assert(out@ =~= old(out)@ + u64_le_spec(v));
    }
}

/// Append a length-prefixed string.
fn put_str(out: &mut Vec<u8>, s: &str)
    ensures
        final(out)@ == old(out)@ + enc_str_spec(s@),
{
    let b = s.as_bytes();
    put_u64(out, b.len() as u64);
    let ghost mid = out@;
    let mut i: usize = 0;
    while i < b.len()
        invariant
            i <= b@.len(),
            b@ == vstd::utf8::encode_utf8(s@),
            out@ =~= mid + b@.take(i as int),
        decreases b@.len() - i,
    {
        out.push(b[i]);
        proof {
            assert(b@.take(i + 1) =~= b@.take(i as int).push(b@[i as int]));
        }
        i = i + 1;
    }
    proof {
        assert(b@.take(b@.len() as int) =~= b@);
        assert(out@ =~= old(out)@ + enc_str_spec(s@));
    }
}

/// Append a counted string list.
fn put_strs(out: &mut Vec<u8>, ss: &Vec<String>)
    ensures
        final(out)@ == old(out)@ + u64_le_spec(ss@.len() as u64) + enc_strs_spec(
            ss@.map_values(|s: String| s@),
        ),
{
    put_u64(out, ss.len() as u64);
    let ghost mid = out@;
    let ghost sv = ss@.map_values(|s: String| s@);
    let mut i: usize = 0;
    proof {
        assert(enc_strs_spec(sv.take(0)) =~= Seq::<u8>::empty());
        assert(out@ =~= mid + enc_strs_spec(sv.take(0)));
    }
    while i < ss.len()
        invariant
            i <= ss@.len(),
            sv == ss@.map_values(|s: String| s@),
            out@ =~= mid + enc_strs_spec(sv.take(i as int)),
        decreases ss@.len() - i,
    {
        put_str(out, ss[i].as_str());
        proof {
            assert(sv.take(i + 1).drop_last() =~= sv.take(i as int));
            assert(sv.take(i + 1).last() == sv[i as int]);
        }
        i = i + 1;
    }
    proof {
        assert(sv.take(sv.len() as int) =~= sv);
    }
}

/// Append one memory entry.
fn put_mem(out: &mut Vec<u8>, id: &str, m: &Memory)
    ensures
        final(out)@ == old(out)@ + enc_mem_spec(id@, m@),
{
    put_str(out, id);
    put_str(out, m.content.as_str());
    put_u64(out, m.created_at);
    put_u64(out, m.last_accessed);
    put_u64(out, m.reinforcement_count);
    put_strs(out, &m.cues);
    put_u64(out, m.metadata.len() as u64);
    let ghost mdbase = out@;
    let ghost pv = m.metadata@.map_values(|kv: (String, String)| (kv.0@, kv.1@));
    let mut k: usize = 0;
    proof {
        assert(enc_pairs_spec(pv.take(0)) =~= Seq::<u8>::empty());
        assert(out@ =~= mdbase + enc_pairs_spec(pv.take(0)));
    }
    while k < m.metadata.len()
        invariant
            k <= pv.len(),
            pv == m.metadata@.map_values(|kv: (String, String)| (kv.0@, kv.1@)),
            out@ =~= mdbase + enc_pairs_spec(pv.take(k as int)),
        decreases pv.len() - k,
    {
        put_str(out, m.metadata[k].0.as_str());
        put_str(out, m.metadata[k].1.as_str());
        proof {
            assert(pv.take(k + 1).drop_last() =~= pv.take(k as int));
            assert(pv.take(k + 1).last() == pv[k as int]);
        }
        k = k + 1;
    }
    proof {
        assert(pv.take(pv.len() as int) =~= pv);
        assert(out@ =~= old(out)@ + enc_mem_spec(id@, m@));
    }
}

/// Write a snapshot as bytes, exactly as the wire format states.
pub fn encode_state(state: &PersistedState) -> (r: Vec<u8>)
    ensures
        r@ == encode_spec(*state),
{
    let mut out: Vec<u8> = Vec::new();
    put_u32(&mut out, state.version);
    put_u64(&mut out, state.saved_at);
    put_u64(&mut out, state.memories.len() as u64);
    let ghost head = out@;
    let ghost msv = state.memories@;
    let mut i: usize = 0;
    proof {
        assert(enc_mems_spec(msv.take(0)) =~= Seq::<u8>::empty());
        assert(out@ =~= head + enc_mems_spec(msv.take(0)));
    }
    while i < state.memories.len()
        invariant
            i <= msv.len(),
            msv == state.memories@,
            out@ =~= head + enc_mems_spec(msv.take(i as int)),
        decreases msv.len() - i,
    {
        let entry = &state.memories[i];
        put_mem(&mut out, entry.0.as_str(), &entry.1);
        proof {
            assert(msv.take(i + 1).drop_last() =~= msv.take(i as int));
            assert(msv.take(i + 1).last() == msv[i as int]);
            assert(out@ =~= head + enc_mems_spec(msv.take(i + 1)));
        }
        i = i + 1;
    }
    proof {
        assert(msv.take(msv.len() as int) =~= msv);
    }
    put_u64(&mut out, state.cue_index.len() as u64);
    let ghost head2 = out@;
    let ghost esv = state.cue_index@;
    let mut t: usize = 0;
    proof {
        assert(enc_sets_spec(esv.take(0)) =~= Seq::<u8>::empty());
        assert(out@ =~= head2 + enc_sets_spec(esv.take(0)));
    }
    while t < state.cue_index.len()
        invariant
            t <= esv.len(),
            esv == state.cue_index@,
            out@ =~= head2 + enc_sets_spec(esv.take(t as int)),
        decreases esv.len() - t,
    {
        let ghost base = out@;
        let entry = &state.cue_index[t];
        put_str(&mut out, entry.0.as_str());
        put_strs(&mut out, &entry.1);
        proof {
            assert(out@ =~= base + enc_set_spec(
                entry.0@,
                entry.1@.map_values(|s: String| s@),
            ));
            assert(esv.take(t + 1).drop_last() =~= esv.take(t as int));
            assert(esv.take(t + 1).last() == esv[t as int]);
            assert(out@ =~= head2 + enc_sets_spec(esv.take(t + 1)));
        }
        t = t + 1;
    }
    proof {
        assert(esv.take(esv.len() as int) =~= esv);
        assert(out@ =~= encode_spec(*state));
    }
    out
}

} // verus!

verus! {

/// Read a little-endian word, with the position after it.
fn get_u32(b: &[u8], pos: usize) -> (r: Option<(u32, usize)>) {
    if pos > b.len() || b.len() - pos < 4 {
        return None;
    }
    let v = (b[pos] as u32) | ((b[pos + 1] as u32) << 8) | ((b[pos + 2] as u32) << 16) | ((b[pos
        + 3] as u32) << 24);
    Some((v, pos + 4))
}

/// Read a little-endian word, with the position after it.
fn get_u64(b: &[u8], pos: usize) -> (r: Option<(u64, usize)>) {
    if pos > b.len() || b.len() - pos < 8 {
        return None;
    }
    let v = (b[pos] as u64) | ((b[pos + 1] as u64) << 8) | ((b[pos + 2] as u64) << 16) | ((b[pos
        + 3] as u64) << 24) | ((b[pos + 4] as u64) << 32) | ((b[pos + 5] as u64) << 40) | ((b[pos
        + 6] as u64) << 48) | ((b[pos + 7] as u64) << 56);
    Some((v, pos + 8))
}

/// Read a length-prefixed string, with the position after it.
fn get_str(b: &[u8], pos: usize) -> (r: Option<(String, usize)>) {
    let (n64, p) = match get_u64(b, pos) {
        Some(x) => x,
        None => {
            return None;
        },
    };
    if n64 > usize::MAX as u64 {
        return None;
    }
    let n = n64 as usize;
    if p > b.len() || b.len() - p < n {
        return None;
    }
    let mut raw: Vec<u8> = Vec::new();
    let mut i: usize = 0;
    proof {
        assert(b@.len() <= usize::MAX);
    }
    while i < n
        invariant
            i <= n,
            p + n <= b@.len(),
            b@.len() <= usize::MAX,
        decreases n - i,
    {
        proof {
            assert(p + i < b@.len());
        }
        raw.push(b[p + i]);
        i = i + 1;
    }
    match ext::string_from_utf8(raw) {
        Some(s) => Some((s, p + n)),
        None => None,
    }
}

/// Read a snapshot back from bytes. `Some` only for the exact image of
/// the returned state: whatever was parsed is re-encoded and must give
/// the input back, so a decoded state always encodes to its source.
pub fn decode_state(bytes: &[u8]) -> (r: Option<PersistedState>)
    ensures
        match r {
            Some(st) => encode_spec(st) == bytes@,
            None => true,
        },
{
    let parsed = match parse_state(bytes) {
        Some(st) => st,
        None => {
            return None;
        },
    };
    let re = encode_state(&parsed);
    if re.len() != bytes.len() {
        return None;
    }
    let mut i: usize = 0;
    while i < re.len()
        invariant
            i <= re@.len(),
            re@.len() == bytes@.len(),
            re@ == encode_spec(parsed),
            forall|j: int| 0 <= j < i ==> re@[j] == bytes@[j],
        decreases re@.len() - i,
    {
        if re[i] != bytes[i] {
            return None;
        }
        i = i + 1;
    }
    proof {
        assert(re@ =~= bytes@);
    }
    Some(parsed)
}

/// Parse the wire fields in order; the caller checks the image.
fn parse_state(bytes: &[u8]) -> (r: Option<PersistedState>) {
    let (version, p1) = match get_u32(bytes, 0) {
        Some(x) => x,
        None => {
            return None;
        },
    };
    if version != PERSISTENCE_VERSION {
        return None;
    }
    let (saved_at, p2) = match get_u64(bytes, p1) {
        Some(x) => x,
        None => {
            return None;
        },
    };
    let (n_mem, p3) = match get_u64(bytes, p2) {
        Some(x) => x,
        None => {
            return None;
        },
    };
    if n_mem > bytes.len() as u64 {
        return None;
    }
    let mut memories: Vec<(String, Memory)> = Vec::new();
    let mut pos = p3;
    let mut i: u64 = 0;
    while i < n_mem
        invariant
            i <= n_mem,
        decreases n_mem - i,
    {
        let (id, q1) = match get_str(bytes, pos) {
            Some(x) => x,
            None => {
                return None;
            },
        };
        let (content, q2) = match get_str(bytes, q1) {
            Some(x) => x,
            None => {
                return None;
            },
        };
        let (created_at, q3) = match get_u64(bytes, q2) {
            Some(x) => x,
            None => {
                return None;
            },
        };
        let (last_accessed, q4) = match get_u64(bytes, q3) {
            Some(x) => x,
            None => {
                return None;
            },
        };
        let (reinforcement_count, q5) = match get_u64(bytes, q4) {
            Some(x) => x,
            None => {
                return None;
            },
        };
        let (cues, q6) = match parse_strs(bytes, q5) {
            Some(x) => x,
            None => {
                return None;
            },
        };
        let (n_meta, q7) = match get_u64(bytes, q6) {
            Some(x) => x,
            None => {
                return None;
            },
        };
        if n_meta > bytes.len() as u64 {
            return None;
        }
        let mut metadata: Vec<(String, String)> = Vec::new();
        let mut q = q7;
        let mut k: u64 = 0;
        while k < n_meta
            invariant
                k <= n_meta,
            decreases n_meta - k,
        {
            let (key, q8) = match get_str(bytes, q) {
                Some(x) => x,
                None => {
                    return None;
                },
            };
            let (val, q9) = match get_str(bytes, q8) {
                Some(x) => x,
                None => {
                    return None;
                },
            };
            metadata.push((key, val));
            q = q9;
            k = k + 1;
        }
        let id2 = id.clone();
        memories.push(
            (
                id,
                Memory {
                    id: id2,
                    content,
                    created_at,
                    last_accessed,
                    reinforcement_count,
                    cues,
                    metadata,
                },
            ),
        );
        pos = q;
        i = i + 1;
    }
    let (n_sets, p4) = match get_u64(bytes, pos) {
        Some(x) => x,
        None => {
            return None;
        },
    };
    if n_sets > bytes.len() as u64 {
        return None;
    }
    let mut cue_index: Vec<(String, Vec<String>)> = Vec::new();
    let mut spos = p4;
    let mut t: u64 = 0;
    while t < n_sets
        invariant
            t <= n_sets,
        decreases n_sets - t,
    {
        let (cue, r1) = match get_str(bytes, spos) {
            Some(x) => x,
            None => {
                return None;
            },
        };
        let (ids, r2) = match parse_strs(bytes, r1) {
            Some(x) => x,
            None => {
                return None;
            },
        };
        cue_index.push((cue, ids));
        spos = r2;
        t = t + 1;
    }
    Some(PersistedState { version, saved_at, memories, cue_index })
}

/// Parse a counted string list, with the position after it.
fn parse_strs(bytes: &[u8], pos: usize) -> (r: Option<(Vec<String>, usize)>) {
    let (n, p) = match get_u64(bytes, pos) {
        Some(x) => x,
        None => {
            return None;
        },
    };
    if n > bytes.len() as u64 {
        return None;
    }
    let mut out: Vec<String> = Vec::new();
    let mut q = p;
    let mut i: u64 = 0;
    while i < n
        invariant
            i <= n,
        decreases n - i,
    {
        let (s, q2) = match get_str(bytes, q) {
            Some(x) => x,
            None => {
                return None;
            },
        };
        out.push(s);
        q = q2;
        i = i + 1;
    }
    Some((out, q))
}

} // verus!

verus! {

/// The six consistency conditions assemble the snapshot invariant.
#[verifier::rlimit(100)]
#[verifier::spinoff_prover]
proof fn lemma_entries_consistent_intro(
    mv: Seq<(Seq<char>, MemView)>,
    sv: Seq<(Seq<char>, Seq<Seq<char>>)>,
)
    requires
        forall|i: int, j: int| 0 <= i < j < mv.len() ==> mv[i].0 != mv[j].0,
        forall|i: int, j: int| 0 <= i < j < sv.len() ==> sv[i].0 != sv[j].0,
        forall|i: int|
            0 <= i < mv.len() ==> {
                let m = (#[trigger] mv[i]).1;
                &&& m.id == mv[i].0
                &&& m.created_at <= m.last_accessed
                &&& m.cues.no_duplicates()
                &&& forall|j: int|
                    0 <= j < m.cues.len() ==> crate::engine::cue_ok(#[trigger] m.cues[j])
            },
        forall|i: int| 0 <= i < sv.len() ==> (#[trigger] sv[i]).1.no_duplicates(),
        forall|i: int, j: int|
            0 <= i < mv.len() && 0 <= j < mv[i].1.cues.len() ==> cue_indexed(
                sv,
                #[trigger] mv[i].1.cues[j],
                mv[i].0,
            ),
        forall|t: int, x: int|
            #![trigger sv[t].1[x]]
            0 <= t < sv.len() && 0 <= x < sv[t].1.len() ==> id_stored(mv, sv[t].1[x], sv[t].0),
    ensures
        entries_consistent(mv, sv),
{
}

/// Whether a character list is a canonical, non-empty cue.
fn cue_ok_exec(c: &Vec<char>) -> (r: bool)
    ensures
        r == crate::engine::cue_ok(c@),
{
    if c.len() == 0 {
        return false;
    }
    let lowered = crate::text::lower_chars(c);
    let canon = crate::text::trim_chars(&lowered);
    crate::text::eq_chars(&canon, c)
}

/// Whether a stored id list holds an id.
fn list_has(ids: &Vec<String>, id: &str) -> (r: bool)
    ensures
        r == ids@.map_values(|s: String| s@).contains(id@),
{
    let ghost iv = ids@.map_values(|s: String| s@);
    let mut j: usize = 0;
    while j < ids.len()
        invariant
            j <= ids@.len(),
            iv == ids@.map_values(|s: String| s@),
            forall|u: int| 0 <= u < j ==> (#[trigger] iv[u]) != id@,
        decreases ids@.len() - j,
    {
        if crate::text::str_eq(ids[j].as_str(), id) {
            proof {
                assert(iv[j as int] == id@);
            }
            return true;
        }
        j = j + 1;
    }
    proof {
        if iv.contains(id@) {
            let u = choose|u: int| 0 <= u < iv.len() && iv[u] == id@;
            assert(iv[u] != id@);
        }
    }
    false
}

/// Test a snapshot's entry lists for the consistency a rebuild relies on:
/// `true` only when the lists are loadable as they stand.
pub fn check_entries(
    memories: &Vec<(String, Memory)>,
    cue_index: &Vec<(String, Vec<String>)>,
) -> (r: bool)
    ensures
        r ==> entries_consistent(
            memories@.map_values(|e: (String, Memory)| (e.0@, e.1@)),
            cue_index@.map_values(
                |e: (String, Vec<String>)| (e.0@, e.1@.map_values(|s: String| s@)),
            ),
        ),
{
    let ghost mv = memories@.map_values(|e: (String, Memory)| (e.0@, e.1@));
    let ghost sv = cue_index@.map_values(
        |e: (String, Vec<String>)| (e.0@, e.1@.map_values(|s: String| s@)),
    );
    // distinct memory ids
    let mut i: usize = 0;
    while i < memories.len()
        invariant
            i <= mv.len(),
            mv == memories@.map_values(|e: (String, Memory)| (e.0@, e.1@)),
            forall|a: int, b: int| 0 <= a < b < i ==> mv[a].0 != mv[b].0,
        decreases mv.len() - i,
    {
        let mut j: usize = 0;
        while j < i
            invariant
                j <= i < mv.len(),
                mv == memories@.map_values(|e: (String, Memory)| (e.0@, e.1@)),
                forall|a: int| 0 <= a < j ==> mv[a].0 != mv[i as int].0,
            decreases i - j,
        {
            if crate::text::str_eq(memories[j].0.as_str(), memories[i].0.as_str()) {
                return false;
            }
            j = j + 1;
        }
        i = i + 1;
    }
    // distinct cues
    let mut t: usize = 0;
    while t < cue_index.len()
        invariant
            t <= sv.len(),
            sv == cue_index@.map_values(
                |e: (String, Vec<String>)| (e.0@, e.1@.map_values(|s: String| s@)),
            ),
            forall|a: int, b: int| 0 <= a < b < t ==> sv[a].0 != sv[b].0,
        decreases sv.len() - t,
    {
        let mut j: usize = 0;
        while j < t
            invariant
                j <= t < sv.len(),
                sv == cue_index@.map_values(
                    |e: (String, Vec<String>)| (e.0@, e.1@.map_values(|s: String| s@)),
                ),
                forall|a: int| 0 <= a < j ==> sv[a].0 != sv[t as int].0,
            decreases t - j,
        {
            if crate::text::str_eq(cue_index[j].0.as_str(), cue_index[t].0.as_str()) {
                return false;
            }
            j = j + 1;
        }
        t = t + 1;
    }
    // each memory: own id, ordered stamps, canonical duplicate-free cues,
    // and every cue indexed with this id
    i = 0;
    while i < memories.len()
        invariant
            i <= mv.len(),
            mv == memories@.map_values(|e: (String, Memory)| (e.0@, e.1@)),
            sv == cue_index@.map_values(
                |e: (String, Vec<String>)| (e.0@, e.1@.map_values(|s: String| s@)),
            ),
            forall|a: int|
                0 <= a < i ==> {
                    let m = (#[trigger] mv[a]).1;
                    &&& m.id == mv[a].0
                    &&& m.created_at <= m.last_accessed
                    &&& m.cues.no_duplicates()
                    &&& forall|j: int|
                        0 <= j < m.cues.len() ==> crate::engine::cue_ok(#[trigger] m.cues[j])
                },
            forall|a: int, j: int|
                0 <= a < i && 0 <= j < mv[a].1.cues.len() ==> cue_indexed(
                    sv,
                    #[trigger] mv[a].1.cues[j],
                    mv[a].0,
                ),
        decreases mv.len() - i,
    {
        let m = &memories[i].1;
        if !crate::text::str_eq(m.id.as_str(), memories[i].0.as_str()) {
            return false;
        }
        if m.created_at > m.last_accessed {
            return false;
        }
        let mut j: usize = 0;
        while j < m.cues.len()
            invariant
                j <= m.cues@.len(),
                i < mv.len(),
                mv == memories@.map_values(|e: (String, Memory)| (e.0@, e.1@)),
                sv == cue_index@.map_values(
                    |e: (String, Vec<String>)| (e.0@, e.1@.map_values(|s: String| s@)),
                ),
                m == &memories[i as int].1,
                forall|a: int, b: int|
                    0 <= a < b < j ==> (#[trigger] mv[i as int].1.cues[a]) != (
                    #[trigger] mv[i as int].1.cues[b]),
                forall|a: int|
                    0 <= a < j ==> crate::engine::cue_ok(#[trigger] mv[i as int].1.cues[a]),
                forall|a: int|
                    0 <= a < j ==> cue_indexed(sv, #[trigger] mv[i as int].1.cues[a], mv[i as int].0),
            decreases m.cues@.len() - j,
        {
            let cj = crate::text::to_chars(m.cues[j].as_str());
            if !cue_ok_exec(&cj) {
                return false;
            }
            let mut k: usize = 0;
            while k < j
                invariant
                    k <= j < m.cues@.len(),
                    i < mv.len(),
                    mv == memories@.map_values(|e: (String, Memory)| (e.0@, e.1@)),
                    m == &memories[i as int].1,
                    forall|a: int|
                        0 <= a < k ==> (#[trigger] mv[i as int].1.cues[a]) != mv[i as int
                        ].1.cues[j as int],
                decreases j - k,
            {
                if crate::text::str_eq(m.cues[k].as_str(), m.cues[j].as_str()) {
                    return false;
                }
                k = k + 1;
            }
            // the index must list this memory under the cue
            let mut u: usize = 0;
            let mut found = false;
            while u < cue_index.len() && !found
                invariant
                    u <= sv.len(),
                    i < mv.len(),
                    j < m.cues@.len(),
                    mv == memories@.map_values(|e: (String, Memory)| (e.0@, e.1@)),
                    sv == cue_index@.map_values(
                        |e: (String, Vec<String>)| (e.0@, e.1@.map_values(|s: String| s@)),
                    ),
                    m == &memories[i as int].1,
                    found ==> cue_indexed(sv, mv[i as int].1.cues[j as int], mv[i as int].0),
                decreases sv.len() - u,
            {
                if crate::text::str_eq(cue_index[u].0.as_str(), m.cues[j].as_str()) {
                    if list_has(&cue_index[u].1, memories[i].0.as_str()) {
                        proof {
                            assert((sv[u as int]).0 == mv[i as int].1.cues[j as int]);
                            assert(sv[u as int].1.contains(mv[i as int].0));
                            assert(cue_indexed(sv, mv[i as int].1.cues[j as int], mv[i as int].0));
                        }
                        found = true;
                    }
                }
                u = u + 1;
            }
            if !found {
                return false;
            }
            j = j + 1;
        }
        proof {
            assert(mv[i as int] == (memories@[i as int].0@, memories@[i as int].1@));
            assert(mv[i as int].1.cues.len() == m.cues@.len());
            assert(j == m.cues@.len());
            assert(mv[i as int].1.cues.no_duplicates()) by {
                assert(forall|a: int, b: int|
                    0 <= a < b < mv[i as int].1.cues.len() ==> (#[trigger] mv[i as int].1.cues[a])
                        != (#[trigger] mv[i as int].1.cues[b]));
            }
            assert(mv[i as int].1.id == mv[i as int].0);
            assert forall|a: int| 0 <= a < i + 1 implies {
                let m2 = (#[trigger] mv[a]).1;
                &&& m2.id == mv[a].0
                &&& m2.created_at <= m2.last_accessed
                &&& m2.cues.no_duplicates()
                &&& forall|j2: int|
                    0 <= j2 < m2.cues.len() ==> crate::engine::cue_ok(#[trigger] m2.cues[j2])
            } by {
                if a == i {
                    assert(mv[a].1.created_at == m.created_at && mv[a].1.last_accessed
                        == m.last_accessed);
                }
            }
            assert forall|a: int, j2: int|
                0 <= a < i + 1 && 0 <= j2 < mv[a].1.cues.len() implies cue_indexed(
                sv,
                #[trigger] mv[a].1.cues[j2],
                mv[a].0,
            ) by {
                if a < i {
                    assert(0 <= a < i && 0 <= j2 < mv[a].1.cues.len());
                } else {
                    assert(a == i);
                    assert(0 <= j2 < mv[i as int].1.cues.len());
                    assert(cue_indexed(sv, mv[i as int].1.cues[j2], mv[i as int].0));
                }
            }
        }
        i = i + 1;
    }
    // each index entry: a duplicate-free list whose every id names a
    // stored memory carrying the cue
    t = 0;
    while t < cue_index.len()
        invariant
            t <= sv.len(),
            mv == memories@.map_values(|e: (String, Memory)| (e.0@, e.1@)),
            sv == cue_index@.map_values(
                |e: (String, Vec<String>)| (e.0@, e.1@.map_values(|s: String| s@)),
            ),
            forall|a: int| 0 <= a < t ==> (#[trigger] sv[a]).1.no_duplicates(),
            forall|a: int, x: int|
                #![trigger sv[a].1[x]]
                0 <= a < t && 0 <= x < sv[a].1.len() ==> id_stored(mv, sv[a].1[x], sv[a].0),
        decreases sv.len() - t,
    {
        let ids = &cue_index[t].1;
        let mut x: usize = 0;
        while x < ids.len()
            invariant
                x <= ids@.len(),
                t < sv.len(),
                mv == memories@.map_values(|e: (String, Memory)| (e.0@, e.1@)),
                sv == cue_index@.map_values(
                    |e: (String, Vec<String>)| (e.0@, e.1@.map_values(|s: String| s@)),
                ),
                ids == &cue_index[t as int].1,
                forall|a: int, b: int|
                    0 <= a < b < x ==> (#[trigger] sv[t as int].1[a]) != (
                    #[trigger] sv[t as int].1[b]),
                forall|a: int|
                    #![trigger sv[t as int].1[a]]
                    0 <= a < x ==> id_stored(mv, sv[t as int].1[a], sv[t as int].0),
            decreases ids@.len() - x,
        {
            let mut y: usize = 0;
            while y < x
                invariant
                    y <= x < ids@.len(),
                    t < sv.len(),
                    sv == cue_index@.map_values(
                        |e: (String, Vec<String>)| (e.0@, e.1@.map_values(|s: String| s@)),
                    ),
                    ids == &cue_index[t as int].1,
                    forall|a: int|
                        0 <= a < y ==> (#[trigger] sv[t as int].1[a]) != sv[t as int].1[x as int],
                decreases x - y,
            {
                if crate::text::str_eq(ids[y].as_str(), ids[x].as_str()) {
                    return false;
                }
                y = y + 1;
            }
            let mut w: usize = 0;
            let mut found = false;
            while w < memories.len() && !found
                invariant
                    w <= mv.len(),
                    t < sv.len(),
                    x < ids@.len(),
                    mv == memories@.map_values(|e: (String, Memory)| (e.0@, e.1@)),
                    sv == cue_index@.map_values(
                        |e: (String, Vec<String>)| (e.0@, e.1@.map_values(|s: String| s@)),
                    ),
                    ids == &cue_index[t as int].1,
                    found ==> id_stored(mv, sv[t as int].1[x as int], sv[t as int].0),
                decreases mv.len() - w,
            {
                if crate::text::str_eq(memories[w].0.as_str(), ids[x].as_str()) {
                    if list_has(&memories[w].1.cues, cue_index[t].0.as_str()) {
                        proof {
                            assert((mv[w as int]).0 == sv[t as int].1[x as int]);
                            assert(mv[w as int].1.cues.contains(sv[t as int].0));
                            assert(id_stored(mv, sv[t as int].1[x as int], sv[t as int].0));
                        }
                        found = true;
                    }
                }
                w = w + 1;
            }
            if !found {
                return false;
            }
            x = x + 1;
        }
        proof {
            assert(sv[t as int] == (
                cue_index@[t as int].0@,
                cue_index@[t as int].1@.map_values(|s2: String| s2@),
            ));
            assert(sv[t as int].1.len() == ids@.len());
            assert(x == ids@.len());
            assert(sv[t as int].1.no_duplicates()) by {
                assert(forall|a: int, b: int|
                    0 <= a < b < sv[t as int].1.len() ==> (#[trigger] sv[t as int].1[a]) != (
                    #[trigger] sv[t as int].1[b]));
            }
            assert forall|a: int, x2: int|
                #![trigger sv[a].1[x2]]
                0 <= a < t + 1 && 0 <= x2 < sv[a].1.len() implies id_stored(
                mv,
                sv[a].1[x2],
                sv[a].0,
            ) by {
                if a < t {
                    assert(0 <= a < t && 0 <= x2 < sv[a].1.len());
                } else {
                    assert(a == t);
                    assert(0 <= x2 < sv[t as int].1.len());
                    assert(id_stored(mv, sv[t as int].1[x2], sv[t as int].0));
                }
            }
        }
        t = t + 1;
    }
    proof {
        lemma_entries_consistent_intro(mv, sv);
    }
    true
}

} // verus!
