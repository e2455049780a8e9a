//! The multi-tenant dispatcher: a registry of isolated projects by id.
//! Writes to one project leave every other project exactly as it was.

use crate::engine::RecallResult;
use crate::normalization::NormalizationConfig;
use crate::projects::ProjectContext;
use crate::taxonomy::Taxonomy;
use crate::taxonomy::ValidationReport;
use crate::text;
use vstd::prelude::*;

verus! {

/// Counts for one project, stamped with the time of the listing.
pub struct ProjectStats {
    pub project_id: String,
    pub total_memories: usize,
    pub total_cues: usize,
    pub created_at: u64,
    pub last_activity: u64,
}

/// The registry: projects by id, ids distinct, every project consistent.
pub struct MultiTenantEngine {
    pub projects: Vec<(String, ProjectContext)>,
}

/// The project stored under an id, if any.
pub open spec fn ctx_of(ps: Seq<(String, ProjectContext)>, id: Seq<char>) -> Option<
    ProjectContext,
>
    decreases ps.len(),
{
    if ps.len() == 0 {
        None
    } else if ps[0].0@ == id {
        Some(ps[0].1)
    } else {
        ctx_of(ps.drop_first(), id)
    }
}

/// With distinct ids, the stored project is the entry's, whichever entry
/// matches.
pub proof fn lemma_ctx_of(ps: Seq<(String, ProjectContext)>, id: Seq<char>)
    requires
        forall|i: int, j: int| 0 <= i < j < ps.len() ==> ps[i].0@ != ps[j].0@,
    ensures
        forall|i: int|
            0 <= i < ps.len() && (#[trigger] ps[i]).0@ == id ==> ctx_of(ps, id) == Some(ps[i].1),
        (forall|i: int| 0 <= i < ps.len() ==> (#[trigger] ps[i]).0@ != id) ==> ctx_of(ps, id)
            is None,
    decreases ps.len(),
{
    if ps.len() > 0 {
        lemma_ctx_of(ps.drop_first(), id);
        assert forall|i: int| 0 <= i < ps.len() && (#[trigger] ps[i]).0@ == id implies ctx_of(
            ps,
            id,
        ) == Some(ps[i].1) by {
            if i > 0 {
                assert(ps.drop_first()[i - 1] == ps[i]);
                assert(ps[0].0@ != ps[i].0@);
            }
        }
        if forall|i: int| 0 <= i < ps.len() ==> (#[trigger] ps[i]).0@ != id {
            assert(ps[0].0@ != id);
            assert(forall|i: int|
                0 <= i < ps.drop_first().len() ==> (#[trigger] ps.drop_first()[i]).0@ != id);
        }
    }
}

/// A just-created project: every store empty, the query cache empty, and
/// the default normalization (lowercase, trim, no rewrites) and taxonomy
/// (no restrictions).
pub open spec fn fresh_default_project(p: ProjectContext) -> bool {
    &&& p.main.mems() == crate::ext::empty_mem_map()
    &&& p.main.sets() == crate::ext::empty_set_map()
    &&& p.aliases.mems() == crate::ext::empty_mem_map()
    &&& p.aliases.sets() == crate::ext::empty_set_map()
    &&& p.lexicon.mems() == crate::ext::empty_mem_map()
    &&& p.lexicon.sets() == crate::ext::empty_set_map()
    &&& p.query_cache@.len() == 0
    &&& p.normalization.lowercase
    &&& p.normalization.trim
    &&& p.normalization.rewrite_rules@.len() == 0
    &&& p.taxonomy@.allowed_keys.len() == 0
    &&& p.taxonomy@.allowed_values.len() == 0
    &&& p.taxonomy@.allowed_value_prefixes.len() == 0
}

/// How one recall changes the addressed project: results judged against
/// its prior state, reinforcement applied pointwise when asked, and every
/// other part of the project untouched.
pub open spec fn recalled_in(
    pre: ProjectContext,
    post: ProjectContext,
    results: Seq<RecallResult>,
    query_cues: Seq<String>,
    limit: usize,
    auto_reinforce: bool,
    now: u64,
) -> bool {
    let aw = crate::engine::active_cues(
        crate::engine::unit_weights(query_cues.map_values(|s: String| s@)),
        pre.main.sets(),
    );
    &&& post.aliases == pre.aliases
    &&& post.lexicon == pre.lexicon
    &&& post.query_cache == pre.query_cache
    &&& post.normalization == pre.normalization
    &&& post.taxonomy == pre.taxonomy
    &&& crate::engine::recall_ok(
        results,
        aw,
        pre.main.sets(),
        pre.main.mems(),
        limit,
        None,
        false,
    )
    &&& (!auto_reinforce ==> post.main.mems() == pre.main.mems() && post.main.sets()
        == pre.main.sets())
    &&& (auto_reinforce ==> crate::engine::reinforced_exactly(
        pre.main.mems(),
        pre.main.sets(),
        post.main.mems(),
        post.main.sets(),
        aw,
        None,
        now,
    ))
}

impl MultiTenantEngine {
    /// Distinct project ids, every project consistent.
    pub open spec fn wf(&self) -> bool {
        &&& forall|i: int, j: int|
            0 <= i < j < self.projects@.len() ==> self.projects@[i].0@ != self.projects@[j].0@
        &&& forall|i: int| 0 <= i < self.projects@.len() ==> (#[trigger] self.projects@[i]).1.wf()
    }

    /// An empty registry.
    pub fn new() -> (r: Self)
        ensures
            r.wf(),
            r.projects@.len() == 0,
    {
        MultiTenantEngine { projects: Vec::new() }
    }

    /// The index of a project, if registered.
    pub fn find_project(&self, project_id: &str) -> (r: Option<usize>)
        ensures
            match r {
                Some(i) => i < self.projects@.len() && self.projects@[i as int].0@ == project_id@,
                None => forall|i: int|
                    0 <= i < self.projects@.len() ==> (#[trigger] self.projects@[i]).0@
                        != project_id@,
            },
    {
        let mut i: usize = 0;
        while i < self.projects.len()
            invariant
                i <= self.projects@.len(),
                forall|j: int| 0 <= j < i ==> (#[trigger] self.projects@[j]).0@ != project_id@,
            decreases self.projects@.len() - i,
        {
            if text::str_eq(self.projects[i].0.as_str(), project_id) {
                return Some(i);
            }
            i = i + 1;
        }
        None
    }

    /// Register the project when it is new (with the default
    /// configuration), and hand back its index either way. No other
    /// project changes.
    pub fn get_or_create_project(&mut self, project_id: &str) -> (r: usize)
        requires
            old(self).wf(),
        ensures
            final(self).wf(),
            r < final(self).projects@.len(),
            final(self).projects@[r as int].0@ == project_id@,
            forall|k: Seq<char>|
                k != project_id@ ==> ctx_of(final(self).projects@, k) == ctx_of(
                    old(self).projects@,
                    k,
                ),
            (exists|i: int|
                0 <= i < old(self).projects@.len() && (#[trigger] old(self).projects@[i]).0@
                    == project_id@) ==> final(self).projects@ == old(self).projects@,
            (forall|i: int|
                0 <= i < old(self).projects@.len() ==> (#[trigger] old(self).projects@[i]).0@
                    != project_id@) ==> final(self).projects@.len() == old(self).projects@.len()
                + 1 && fresh_default_project(final(self).projects@[r as int].1),
    {
        match self.find_project(project_id) {
            Some(i) => {
                proof {
                    assert forall|k: Seq<char>| k != project_id@ implies ctx_of(
                        self.projects@,
                        k,
                    ) == ctx_of(old(self).projects@, k) by {}
                }
                i
            },
            None => {
                let ctx = ProjectContext::new(NormalizationConfig::default(), Taxonomy::default());
                let ghost before = self.projects@;
                self.projects.push((project_id.to_owned(), ctx));
                proof {
                    assert(self.projects@.drop_last() =~= before);
                    assert(self.projects@.last().0@ == project_id@);
                    assert forall|k: Seq<char>| k != project_id@ implies ctx_of(
                        self.projects@,
                        k,
                    ) == ctx_of(before, k) by {
                        lemma_ctx_of_push(before, self.projects@.last(), k);
                    }
                }
                self.projects.len() - 1
            },
        }
    }

    /// Drop a project. Every other project keeps its state.
    pub fn delete_project(&mut self, project_id: &str) -> (r: bool)
        requires
            old(self).wf(),
        ensures
            final(self).wf(),
            r == (exists|i: int|
                0 <= i < old(self).projects@.len() && (#[trigger] old(self).projects@[i]).0@
                    == project_id@),
            ctx_of(final(self).projects@, project_id@) is None,
            forall|k: Seq<char>|
                k != project_id@ ==> ctx_of(final(self).projects@, k) == ctx_of(
                    old(self).projects@,
                    k,
                ),
    {
        match self.find_project(project_id) {
            Some(i) => {
                let ghost before = self.projects@;
                let _removed = self.projects.swap_remove(i);
                proof {
                    let after = self.projects@;
                    assert(after =~= before.update(i as int, before.last()).drop_last());
                    assert forall|x: int, y: int| 0 <= x < y < after.len() implies after[x].0@
                        != after[y].0@ by {
                        let bx: int = if x == i {
                            before.len() - 1
                        } else {
                            x
                        };
                        let by: int = if y == i {
                            before.len() - 1
                        } else {
                            y
                        };
                        assert(after[x] == before[bx] && after[y] == before[by]);
                    }
                    assert forall|k: Seq<char>| k != project_id@ implies ctx_of(after, k)
                        == ctx_of(before, k) by {
                        lemma_ctx_of(before, k);
                        lemma_ctx_of(after, k);
                        if exists|t: int|
                            0 <= t < before.len() && (#[trigger] before[t]).0@ == k {
                            let t = choose|t: int|
                                0 <= t < before.len() && (#[trigger] before[t]).0@ == k;
                            if t == before.len() - 1 {
                                if i as int == t {
                                    assert(before[t].0@ == project_id@);
                                } else {
                                    assert(after[i as int] == before[t]);
                                }
                            } else {
                                assert(after[t] == before[t]);
                            }
                        } else {
                            assert(forall|t: int|
                                0 <= t < after.len() ==> (#[trigger] after[t]).0@ != k) by {
                                assert forall|t: int| 0 <= t < after.len() implies (
                                #[trigger] after[t]).0@ != k by {
                                    if t == i {
                                        assert(after[t] == before[before.len() - 1]);
                                    } else {
                                        assert(after[t] == before[t]);
                                    }
                                }
                            }
                        }
                    }
                    lemma_ctx_of(self.projects@, project_id@);
                    assert forall|t: int| 0 <= t < self.projects@.len() implies (
                    #[trigger] self.projects@[t]).0@ != project_id@ by {
                        if t == i {
                            assert(self.projects@[t] == before[before.len() - 1]);
                            if i < before.len() - 1 {
                                assert(before[i as int].0@ == project_id@);
                                assert(before[i as int].0@ != before[before.len() - 1].0@);
                            }
                        } else {
                            assert(self.projects@[t] == before[t]);
                            assert(before[t].0@ != before[i as int].0@);
                        }
                    }
                    assert(before[i as int].0@ == project_id@);
                }
                true
            },
            None => {
                proof {
                    lemma_ctx_of(self.projects@, project_id@);
                }
                false
            },
        }
    }

    /// Counts for every project, stamped with `now`.
    pub fn list_projects(&self, now: u64) -> (r: Vec<ProjectStats>)
        ensures
            r@.len() == self.projects@.len(),
            forall|i: int|
                0 <= i < r@.len() ==> (#[trigger] r@[i]).project_id@ == self.projects@[i].0@
                    && r@[i].total_memories == self.projects@[i].1.main.mems().dom().len() && r@[
                    i
                ].total_cues == self.projects@[i].1.main.sets().dom().len(),
    {
        let mut out: Vec<ProjectStats> = Vec::new();
        let mut i: usize = 0;
        while i < self.projects.len()
            invariant
                i <= self.projects@.len(),
                out@.len() == i,
                forall|j: int|
                    0 <= j < i ==> (#[trigger] out@[j]).project_id@ == self.projects@[j].0@
                        && out@[j].total_memories == self.projects@[j].1.main.mems().dom().len()
                        && out@[j].total_cues == self.projects@[j].1.main.sets().dom().len(),
            decreases self.projects@.len() - i,
        {
            let stats = self.projects[i].1.main.get_stats();
            out.push(
                ProjectStats {
                    project_id: self.projects[i].0.clone(),
                    total_memories: stats.total_memories,
                    total_cues: stats.total_cues,
                    created_at: now,
                    last_activity: now,
                },
            );
            i = i + 1;
        }
        out
    }

    /// Store content in one project (creating it on first use). Every
    /// other project keeps its state.
    pub fn store_in_project(
        &mut self,
        project_id: &str,
        content: String,
        cues: Vec<String>,
        metadata: Vec<(String, String)>,
        now: u64,
    ) -> (r: (String, ValidationReport))
        requires
            old(self).wf(),
        ensures
            final(self).wf(),
            forall|k: Seq<char>|
                k != project_id@ ==> ctx_of(final(self).projects@, k) == ctx_of(
                    old(self).projects@,
                    k,
                ),
            exists|pre: ProjectContext, post: ProjectContext|
                #![auto]
                {
                    &&& (match ctx_of(old(self).projects@, project_id@) {
                        Some(c) => pre == c,
                        None => fresh_default_project(pre),
                    })
                    &&& ctx_of(final(self).projects@, project_id@) == Some(post)
                    &&& post.aliases == pre.aliases
                    &&& post.lexicon == pre.lexicon
                    &&& post.normalization == pre.normalization
                    &&& post.taxonomy == pre.taxonomy
                    &&& forall|j: int|
                        0 <= j < r.1.accepted@.len() ==> crate::taxonomy::accepts(
                            pre.taxonomy@,
                            (#[trigger] r.1.accepted@[j])@,
                        )
                    &&& (!pre.main.mems().contains_key(r.0@) ==> post.main.mems()
                        == pre.main.mems().insert(
                        r.0@,
                        crate::engine::fresh_view(
                            r.0@,
                            content@,
                            crate::engine::canon_cues_spec(
                                r.1.accepted@.map_values(|s: String| s@),
                            ),
                            metadata@.map_values(|kv: (String, String)| (kv.0@, kv.1@)),
                            now,
                        ),
                    ) && post.main.sets() == crate::engine::index_add_all(
                        pre.main.sets(),
                        crate::engine::canon_cues_spec(r.1.accepted@.map_values(|s: String| s@)),
                        r.0@,
                    ))
                },
    {
        let i = self.get_or_create_project(project_id);
        let ghost mid = self.projects@;
        proof {
            lemma_ctx_of(old(self).projects@, project_id@);
            lemma_ctx_of(mid, project_id@);
        }
        let (key, mut ctx) = self.projects.swap_remove(i);
        let ghost pre = ctx;
        proof {
            if exists|t: int|
                0 <= t < old(self).projects@.len() && (#[trigger] old(self).projects@[t]).0@
                    == project_id@ {
                assert(mid == old(self).projects@);
                assert(ctx_of(old(self).projects@, project_id@) == Some(pre));
            } else {
                assert(ctx_of(old(self).projects@, project_id@) is None);
                assert(fresh_default_project(pre));
            }
        }
        let r = ctx.store_memory(content, cues, metadata, now);
        let ghost ctx2 = ctx;
        self.projects.push((key, ctx));
        proof {
            lemma_put_back(mid, self.projects@, i as int, project_id@, ctx2);
        }
        r
    }

    /// Recall in one project (creating it on first use). Every other
    /// project keeps its state.
    pub fn recall_in_project(
        &mut self,
        project_id: &str,
        query_cues: Vec<String>,
        limit: usize,
        auto_reinforce: bool,
        now: u64,
    ) -> (r: Vec<RecallResult>)
        requires
            old(self).wf(),
            query_cues@.len() <= 1000000,
        ensures
            final(self).wf(),
            forall|k: Seq<char>|
                k != project_id@ ==> ctx_of(final(self).projects@, k) == ctx_of(
                    old(self).projects@,
                    k,
                ),
            exists|pre: ProjectContext, post: ProjectContext|
                #![auto]
                (match ctx_of(old(self).projects@, project_id@) {
                    Some(c) => pre == c,
                    None => fresh_default_project(pre),
                }) && ctx_of(final(self).projects@, project_id@) == Some(post) && recalled_in(
                    pre,
                    post,
                    r@,
                    query_cues@,
                    limit,
                    auto_reinforce,
                    now,
                ),
    {
        let i = self.get_or_create_project(project_id);
        let ghost mid = self.projects@;
        proof {
            lemma_ctx_of(old(self).projects@, project_id@);
            lemma_ctx_of(mid, project_id@);
        }
        let (key, mut ctx) = self.projects.swap_remove(i);
        let ghost pre = ctx;
        proof {
            if exists|t: int|
                0 <= t < old(self).projects@.len() && (#[trigger] old(self).projects@[t]).0@
                    == project_id@ {
                assert(mid == old(self).projects@);
                assert(ctx_of(old(self).projects@, project_id@) == Some(pre));
            } else {
                assert(ctx_of(old(self).projects@, project_id@) is None);
                assert(fresh_default_project(pre));
            }
        }
        let r = ctx.main.recall(query_cues, limit, auto_reinforce, now);
        let ghost ctx2 = ctx;
        self.projects.push((key, ctx));
        proof {
            lemma_put_back(mid, self.projects@, i as int, project_id@, ctx2);
            assert(recalled_in(pre, ctx2, r@, query_cues@, limit, auto_reinforce, now));
        }
        r
    }
}

/// Pushing a fresh id does not change what any other id maps to.
pub proof fn lemma_ctx_of_push(
    ps: Seq<(String, ProjectContext)>,
    entry: (String, ProjectContext),
    k: Seq<char>,
)
    requires
        k != entry.0@,
    ensures
        ctx_of(ps.push(entry), k) == ctx_of(ps, k),
    decreases ps.len(),
{
    if ps.len() == 0 {
        assert(ps.push(entry)[0] == entry);
        assert(ps.push(entry).drop_first() =~= Seq::<(String, ProjectContext)>::empty().push(
            entry,
        ).drop_first());
        assert(ps.push(entry).drop_first().len() == 0);
    } else {
        assert(ps.push(entry)[0] == ps[0]);
        assert(ps.push(entry).drop_first() =~= ps.drop_first().push(entry));
        lemma_ctx_of_push(ps.drop_first(), entry, k);
        if ps[0].0@ == k {
            assert(ctx_of(ps, k) == Some(ps[0].1));
            assert(ctx_of(ps.push(entry), k) == Some(ps.push(entry)[0].1));
        } else {
            assert(ctx_of(ps, k) == ctx_of(ps.drop_first(), k));
            assert(ctx_of(ps.push(entry), k) == ctx_of(ps.push(entry).drop_first(), k));
            assert(ctx_of(ps.push(entry).drop_first(), k) == ctx_of(
                ps.drop_first().push(entry),
                k,
            ));
        }
    }
}

/// Taking one project out, changing it, and pushing it back under the
/// same id leaves every other id's project as it was.
pub proof fn lemma_put_back(
    mid: Seq<(String, ProjectContext)>,
    after: Seq<(String, ProjectContext)>,
    i: int,
    id: Seq<char>,
    ctx2: ProjectContext,
)
    requires
        0 <= i < mid.len(),
        mid[i].0@ == id,
        forall|x: int, y: int| 0 <= x < y < mid.len() ==> mid[x].0@ != mid[y].0@,
        after =~= mid.update(i, mid.last()).drop_last().push((mid[i].0, ctx2)),
        ctx2.wf(),
        forall|t: int| 0 <= t < mid.len() ==> (#[trigger] mid[t]).1.wf(),
    ensures
        forall|x: int, y: int| 0 <= x < y < after.len() ==> after[x].0@ != after[y].0@,
        forall|t: int| 0 <= t < after.len() ==> (#[trigger] after[t]).1.wf(),
        forall|k: Seq<char>| k != id ==> ctx_of(after, k) == ctx_of(mid, k),
        ctx_of(after, id) == Some(ctx2),
{
    let shrunk = mid.update(i, mid.last()).drop_last();
    assert forall|x: int, y: int| 0 <= x < y < after.len() implies after[x].0@ != after[y].0@ by {
        let mx: int = if x == i && x < mid.len() - 1 {
            mid.len() - 1
        } else {
            x
        };
        let my: int = if y == i && y < mid.len() - 1 {
            mid.len() - 1
        } else {
            y
        };
        if y == after.len() - 1 {
            assert(after[y].0@ == id);
            if x < shrunk.len() {
                assert(after[x] == shrunk[x]);
                assert(shrunk[x] == mid[mx]);
                assert(mid[mx].0@ != mid[i].0@);
            }
        } else {
            assert(after[x] == mid[mx] && after[y] == mid[my]);
        }
    }
    assert forall|t: int| 0 <= t < after.len() implies (#[trigger] after[t]).1.wf() by {
        if t == after.len() - 1 {
        } else {
            let mt: int = if t == i && t < mid.len() - 1 {
                mid.len() - 1
            } else {
                t
            };
            assert(after[t] == mid[mt]);
        }
    }
    assert(ctx_of(after, id) == Some(ctx2)) by {
        lemma_ctx_of(after, id);
        assert(after[after.len() - 1].0@ == id);
        assert(after[after.len() - 1].1 == ctx2);
    }
    assert forall|k: Seq<char>| k != id implies ctx_of(after, k) == ctx_of(mid, k) by {
        lemma_ctx_of(mid, k);
        lemma_ctx_of(after, k);
        assert forall|x: int, y: int| 0 <= x < y < mid.len() implies mid[x].0@ != mid[y].0@ by {}
        if exists|t: int| 0 <= t < mid.len() && (#[trigger] mid[t]).0@ == k {
            let t = choose|t: int| 0 <= t < mid.len() && (#[trigger] mid[t]).0@ == k;
            assert(t != i);
            if t == mid.len() - 1 {
                if i < mid.len() - 1 {
                    assert(after[i] == mid[t]);
                } else {
                    assert(false);
                }
            } else {
                assert(after[t] == mid[t]);
            }
        } else {
            assert forall|t: int| 0 <= t < after.len() implies (#[trigger] after[t]).0@ != k by {
                if t == after.len() - 1 {
                    assert(after[t].0@ == id);
                    assert(mid[i].0@ == id);
                } else {
                    let mt: int = if t == i && t < mid.len() - 1 {
                        mid.len() - 1
                    } else {
                        t
                    };
                    assert(after[t] == mid[mt]);
                }
            }
        }
    }
}

/// Whether a project id is acceptable: 3 to 64 characters, each an ASCII
/// letter, digit, hyphen or underscore.
pub open spec fn ident_char(c: char) -> bool {
    (48 <= c as u32 && c as u32 <= 57) || (65 <= c as u32 && c as u32 <= 90) || (97 <= c as u32
        && c as u32 <= 122) || c == '-' || c == '_'
}

/// Validate a project id.
pub fn validate_project_id(project_id: &str) -> (r: bool)
    ensures
        r == (3 <= project_id@.len() <= 64 && (forall|i: int|
            0 <= i < project_id@.len() ==> ident_char(#[trigger] project_id@[i]))),
{
    let cs = text::to_chars(project_id);
    if cs.len() < 3 || cs.len() > 64 {
        return false;
    }
    let mut i: usize = 0;
    while i < cs.len()
        invariant
            cs@ == project_id@,
            i <= cs@.len(),
            forall|j: int| 0 <= j < i ==> ident_char(#[trigger] cs@[j]),
        decreases cs@.len() - i,
    {
        let u = cs[i] as u32;
        let ok = (48 <= u && u <= 57) || (65 <= u && u <= 90) || (97 <= u && u <= 122) || cs[i]
            == '-' || cs[i] == '_';
        if !ok {
            return false;
        }
        i = i + 1;
    }
    true
}

} // verus!
