use vstd::prelude::*;

use crate::rank::{sort_pairs, take_count, KeyPair};
use crate::skill::{clone_opt_string, clone_skill, views_of, Skill, SkillView};

verus! {

broadcast use vstd::seq_lib::group_to_multiset_ensures;

/// Per-registry synchronisation bookkeeping: when the last sync pass
/// finished and an optional cache validator token (stored, never consulted).
pub struct SyncState {
    pub registry: String,
    pub last_sync: i64,
    pub etag: Option<String>,
}

#[verifier::ext_equal]
pub struct SyncStateView {
    pub registry: Seq<char>,
    pub last_sync: int,
    pub etag: Option<Seq<char>>,
}

impl View for SyncState {
    type V = SyncStateView;

    open spec fn view(&self) -> SyncStateView {
        SyncStateView {
            registry: self.registry@,
            last_sync: self.last_sync as int,
            etag: match self.etag {
                Some(v) => Some(v@),
                None => None,
            },
        }
    }
}

/// True when `a` and `b` share the natural identity (registry, slug).
pub open spec fn key_eq(a: SkillView, b: SkillView) -> bool {
    a.registry == b.registry && a.slug == b.slug
}

/// True when the record at position `i` carries the given identity.
pub open spec fn key_at(s: Seq<SkillView>, i: int, registry: Seq<char>, slug: Seq<char>) -> bool {
    s[i].registry == registry && s[i].slug == slug
}

/// True when some record in `s` carries the given identity.
pub open spec fn has_key(s: Seq<SkillView>, registry: Seq<char>, slug: Seq<char>) -> bool {
    exists|i: int| 0 <= i < s.len() && key_at(s, i, registry, slug)
}

/// The position of the record carrying the given identity; meaningful only
/// when `has_key` holds (and unique whenever the store is well formed).
pub open spec fn key_index(s: Seq<SkillView>, registry: Seq<char>, slug: Seq<char>) -> int {
    choose|i: int| 0 <= i < s.len() && key_at(s, i, registry, slug)
}

/// The row that an upsert of `r` over the existing row `e` leaves behind:
/// identity and id stay, every mutable field takes the incoming value.
pub open spec fn merged_view(e: SkillView, r: SkillView) -> SkillView {
    SkillView {
        id: e.id,
        slug: e.slug,
        registry: e.registry,
        name: r.name,
        description: r.description,
        skill_md: r.skill_md,
        github_url: r.github_url,
        version: r.version,
        stars: r.stars,
        trusted: r.trusted,
        updated_at: r.updated_at,
    }
}

/// The row that an upsert of `r` inserts when the identity is absent:
/// the incoming fields under the freshly assigned id.
pub open spec fn inserted_view(r: SkillView, id: int) -> SkillView {
    SkillView {
        id: id,
        slug: r.slug,
        registry: r.registry,
        name: r.name,
        description: r.description,
        skill_md: r.skill_md,
        github_url: r.github_url,
        version: r.version,
        stars: r.stars,
        trusted: r.trusted,
        updated_at: r.updated_at,
    }
}

/// What one upsert does to the store: the new table, the next fresh id and
/// the id handed back, as a function of the old table and the incoming record.
pub open spec fn upsert_state(s: Seq<SkillView>, next: int, r: SkillView) -> (
    Seq<SkillView>,
    int,
    int,
) {
    if has_key(s, r.registry, r.slug) {
        let i = key_index(s, r.registry, r.slug);
        (s.update(i, merged_view(s[i], r)), next, s[i].id)
    } else {
        (s.push(inserted_view(r, next)), next + 1, next)
    }
}

/// The row `e` with only its popularity metric replaced.
pub open spec fn stars_updated(e: SkillView, stars: int) -> SkillView {
    SkillView {
        id: e.id,
        slug: e.slug,
        registry: e.registry,
        name: e.name,
        description: e.description,
        skill_md: e.skill_md,
        github_url: e.github_url,
        version: e.version,
        stars: stars,
        trusted: e.trusted,
        updated_at: e.updated_at,
    }
}

/// True when the record at position `i` carries the given slug.
pub open spec fn slug_at(s: Seq<SkillView>, i: int, slug: Seq<char>) -> bool {
    s[i].slug == slug
}

/// The records of one registry, in store order.
pub open spec fn by_registry(s: Seq<SkillView>, registry: Seq<char>) -> Seq<SkillView> {
    s.filter(|r: SkillView| r.registry == registry)
}

/// The slugs of a sequence of records, in order.
pub open spec fn slugs_of(s: Seq<SkillView>) -> Seq<Seq<char>> {
    s.map(|i: int, r: SkillView| r.slug)
}

/// The views of a sequence of strings, in order.
pub open spec fn str_views(s: Seq<String>) -> Seq<Seq<char>> {
    s.map(|i: int, x: String| x@)
}

/// The mathematical value of a fixed-point coordinate vector.
pub open spec fn int_vec(v: Seq<i32>) -> Seq<int> {
    v.map(|i: int, x: i32| x as int)
}

/// True when the sync-state row at position `i` belongs to the registry.
pub open spec fn sync_at(s: Seq<SyncStateView>, i: int, registry: Seq<char>) -> bool {
    s[i].registry == registry
}

/// True when some sync-state row belongs to the registry.
pub open spec fn has_sync(s: Seq<SyncStateView>, registry: Seq<char>) -> bool {
    exists|i: int| 0 <= i < s.len() && sync_at(s, i, registry)
}

/// Position of the registry's sync-state row; meaningful when `has_sync`.
pub open spec fn sync_index(s: Seq<SyncStateView>, registry: Seq<char>) -> int {
    choose|i: int| 0 <= i < s.len() && sync_at(s, i, registry)
}

/// What setting the sync state does: replace the registry's row or add one.
pub open spec fn set_sync(
    s: Seq<SyncStateView>,
    registry: Seq<char>,
    last_sync: int,
    etag: Option<Seq<char>>,
) -> Seq<SyncStateView> {
    let row = SyncStateView { registry: registry, last_sync: last_sync, etag: etag };
    if has_sync(s, registry) {
        s.update(sync_index(s, registry), row)
    } else {
        s.push(row)
    }
}

/// True when an embedding is stored under the record id.
pub open spec fn has_emb(e: Seq<(int, Seq<int>)>, id: int) -> bool {
    exists|i: int| 0 <= i < e.len() && (#[trigger] e[i]).0 == id
}

/// Position of the embedding stored under the record id.
pub open spec fn emb_index(e: Seq<(int, Seq<int>)>, id: int) -> int {
    choose|i: int| 0 <= i < e.len() && (#[trigger] e[i]).0 == id
}

/// The vector stored under the record id; meaningful when `has_emb`.
pub open spec fn emb_of(e: Seq<(int, Seq<int>)>, id: int) -> Seq<int> {
    e[emb_index(e, id)].1
}

/// What storing an embedding does: replace the id's vector or add one.
pub open spec fn emb_upsert(e: Seq<(int, Seq<int>)>, id: int, v: Seq<int>) -> Seq<
    (int, Seq<int>),
> {
    if has_emb(e, id) {
        e.update(emb_index(e, id), (id, v))
    } else {
        e.push((id, v))
    }
}

/// The records still waiting for an embedding vector.
pub open spec fn needing_embedding(s: Seq<SkillView>, e: Seq<(int, Seq<int>)>) -> Seq<SkillView> {
    s.filter(|r: SkillView| !has_emb(e, r.id))
}

/// Pairwise uniqueness of the natural identity (registry, slug).
pub open spec fn keys_unique(s: Seq<SkillView>) -> bool {
    forall|i: int, j: int| 0 <= i < j < s.len() ==> !key_eq(#[trigger] s[i], #[trigger] s[j])
}

/// Law: upserting a record twice leaves exactly the table, the next fresh
/// id and the returned id of a single upsert.
pub proof fn lemma_upsert_idempotent(s: Seq<SkillView>, next: int, r: SkillView)
    requires
        keys_unique(s),
    ensures
        upsert_state(upsert_state(s, next, r).0, upsert_state(s, next, r).1, r) == upsert_state(
            s,
            next,
            r,
        ),
{
    let k_reg = r.registry;
    let k_slug = r.slug;
    let (s1, n1, id1) = upsert_state(s, next, r);
    if has_key(s, k_reg, k_slug) {
        let i = key_index(s, k_reg, k_slug);
        assert(0 <= i < s.len() && key_at(s, i, k_reg, k_slug));
        assert(s1 == s.update(i, merged_view(s[i], r)));
        assert(key_at(s1, i, k_reg, k_slug));
        assert(has_key(s1, k_reg, k_slug));
        let i2 = key_index(s1, k_reg, k_slug);
        assert(0 <= i2 < s1.len() && key_at(s1, i2, k_reg, k_slug));
        if i2 != i {
            assert(s1[i2] == s[i2]);
            assert(key_at(s, i2, k_reg, k_slug));
            assert(key_eq(s[i], s[i2]));
            assert(false);
        }
        assert(merged_view(s1[i], r) == s1[i]);
        assert(s1.update(i, merged_view(s1[i], r)) =~= s1);
        assert(upsert_state(s1, n1, r).1 == n1);
        assert(upsert_state(s1, n1, r).2 == s1[i].id);
        assert(s1[i].id == s[i].id);
    } else {
        let l = s.len() as int;
        assert(s1 == s.push(inserted_view(r, next)));
        assert(key_at(s1, l, k_reg, k_slug));
        assert(has_key(s1, k_reg, k_slug));
        let i2 = key_index(s1, k_reg, k_slug);
        assert(0 <= i2 < s1.len() && key_at(s1, i2, k_reg, k_slug));
        if i2 != l {
            assert(s1[i2] == s[i2]);
            assert(key_at(s, i2, k_reg, k_slug));
            assert(has_key(s, k_reg, k_slug));
            assert(false);
        }
        assert(merged_view(s1[l], r) == s1[l]);
        assert(s1.update(l, merged_view(s1[l], r)) =~= s1);
        assert(s1[l].id == next);
    }
}

/// Law: two upserts sharing the natural identity collapse to one row, which
/// keeps the id of the first write and the mutable fields of the second.
pub proof fn lemma_upsert_collapses(s: Seq<SkillView>, next: int, r1: SkillView, r2: SkillView)
    requires
        keys_unique(s),
        r1.registry == r2.registry,
        r1.slug == r2.slug,
    ensures
        ({
            let (s1, n1, id1) = upsert_state(s, next, r1);
            let (s2, n2, id2) = upsert_state(s1, n1, r2);
            &&& id2 == id1
            &&& exists|i: int|
                {
                    &&& 0 <= i < s2.len()
                    &&& key_at(s2, i, r2.registry, r2.slug)
                    &&& (#[trigger] s2[i]).id == id1
                    &&& s2[i].name == r2.name
                    &&& s2[i].description == r2.description
                    &&& s2[i].skill_md == r2.skill_md
                    &&& s2[i].github_url == r2.github_url
                    &&& s2[i].version == r2.version
                    &&& s2[i].stars == r2.stars
                    &&& s2[i].trusted == r2.trusted
                    &&& s2[i].updated_at == r2.updated_at
                    &&& forall|j: int|
                        0 <= j < s2.len() && j != i ==> !key_at(s2, j, r2.registry, r2.slug)
                }
        }),
{
    let k_reg = r1.registry;
    let k_slug = r1.slug;
    let (s1, n1, id1) = upsert_state(s, next, r1);
    if has_key(s, k_reg, k_slug) {
        let i = key_index(s, k_reg, k_slug);
        assert(0 <= i < s.len() && key_at(s, i, k_reg, k_slug));
        assert(s1 == s.update(i, merged_view(s[i], r1)));
        assert(key_at(s1, i, k_reg, k_slug));
        assert(has_key(s1, k_reg, k_slug));
        let i2 = key_index(s1, k_reg, k_slug);
        assert(0 <= i2 < s1.len() && key_at(s1, i2, k_reg, k_slug));
        if i2 != i {
            assert(s1[i2] == s[i2]);
            assert(key_eq(s[i], s[i2]));
            assert(false);
        }
        let s2 = upsert_state(s1, n1, r2).0;
        assert(s2 == s1.update(i, merged_view(s1[i], r2)));
        assert(key_at(s2, i, r2.registry, r2.slug) && s2[i].id == id1);
        assert forall|j: int| 0 <= j < s2.len() && j != i implies !key_at(
            s2,
            j,
            r2.registry,
            r2.slug,
        ) by {
            assert(s2[j] == s[j]);
            if key_at(s2, j, r2.registry, r2.slug) {
                assert(key_eq(s[i], s[j]) || key_eq(s[j], s[i]));
                assert(false);
            }
        }
    } else {
        let l = s.len() as int;
        assert(s1 == s.push(inserted_view(r1, next)));
        assert(key_at(s1, l, k_reg, k_slug));
        assert(has_key(s1, k_reg, k_slug));
        let i2 = key_index(s1, k_reg, k_slug);
        assert(0 <= i2 < s1.len() && key_at(s1, i2, k_reg, k_slug));
        if i2 != l {
            assert(s1[i2] == s[i2]);
            assert(key_at(s, i2, k_reg, k_slug));
            assert(has_key(s, k_reg, k_slug));
            assert(false);
        }
        let s2 = upsert_state(s1, n1, r2).0;
        assert(s2 == s1.update(l, merged_view(s1[l], r2)));
        assert(key_at(s2, l, r2.registry, r2.slug) && s2[l].id == next && id1 == next);
        assert forall|j: int| 0 <= j < s2.len() && j != l implies !key_at(
            s2,
            j,
            r2.registry,
            r2.slug,
        ) by {
            assert(s2[j] == s[j]);
            if key_at(s2, j, r2.registry, r2.slug) {
                assert(key_at(s, j, k_reg, k_slug));
                assert(has_key(s, k_reg, k_slug));
                assert(false);
            }
        }
    }
}

/// Durable keyed record store, modelled as a table of records with a
/// uniqueness invariant on (registry, slug), a side table of embedding
/// vectors keyed by record id, and per-registry sync state.
pub struct Database {
    skills: Vec<Skill>,
    embeddings: Vec<(i64, Vec<i32>)>,
    sync_state: Vec<SyncState>,
    next_id: i64,
}

impl Database {
    /// The record table, as a sequence of record views.
    pub closed spec fn skills(&self) -> Seq<SkillView> {
        views_of(self.skills@)
    }

    /// The embedding side table: (record id, fixed-point vector) pairs.
    pub closed spec fn embeddings(&self) -> Seq<(int, Seq<int>)> {
        self.embeddings@.map(
            |i: int, p: (i64, Vec<i32>)| (p.0 as int, p.1@.map(|j: int, x: i32| x as int)),
        )
    }

    /// The sync-state table, one entry per registry.
    pub closed spec fn sync_states(&self) -> Seq<SyncStateView> {
        self.sync_state@.map(|i: int, s: SyncState| s@)
    }

    /// The id the next inserted record will receive.
    pub closed spec fn next_id_spec(&self) -> int {
        self.next_id as int
    }

    /// Well-formedness: identities are unique, ids are unique, positive and
    /// below the next fresh id, embedding keys are unique and every stored
    /// vector has the model dimension with bounded coordinates, and each
    /// registry has at most one sync-state row.
    pub open spec fn wf(&self) -> bool {
        &&& forall|i: int, j: int|
            0 <= i < j < self.skills().len() ==> !key_eq(
                #[trigger] self.skills()[i],
                #[trigger] self.skills()[j],
            )
        &&& forall|i: int|
            0 <= i < self.skills().len() ==> 1 <= (#[trigger] self.skills()[i]).id
                < self.next_id_spec()
        &&& forall|i: int, j: int|
            0 <= i < j < self.skills().len() ==> (#[trigger] self.skills()[i]).id != (
            #[trigger] self.skills()[j]).id
        &&& 1 <= self.next_id_spec() <= i64::MAX as int
        &&& forall|i: int, j: int|
            0 <= i < j < self.embeddings().len() ==> (#[trigger] self.embeddings()[i]).0 != (
            #[trigger] self.embeddings()[j]).0
        &&& forall|i: int|
            0 <= i < self.embeddings().len() ==> bounded_vector(
                (#[trigger] self.embeddings()[i]).1,
            )
        &&& forall|i: int, j: int|
            0 <= i < j < self.sync_states().len() ==> (#[trigger] self.sync_states()[i]).registry
                != (#[trigger] self.sync_states()[j]).registry
    }

    /// A fresh, empty store.
    pub fn new() -> (db: Database)
        ensures
            db.wf(),
            db.skills() =~= Seq::<SkillView>::empty(),
            db.embeddings() =~= Seq::<(int, Seq<int>)>::empty(),
            db.sync_states() =~= Seq::<SyncStateView>::empty(),
            db.next_id_spec() == 1,
    {
        Database { skills: Vec::new(), embeddings: Vec::new(), sync_state: Vec::new(), next_id: 1 }
    }

    /// True when the store holds no records yet (first launch).
    pub fn needs_initial_sync(&self) -> (r: bool)
        ensures
            r == (self.skills().len() == 0),
    {
        self.skills.len() == 0
    }

    /// Forgets all per-registry sync state; records are untouched.
    pub fn clear_sync_state(&mut self)
        requires
            old(self).wf(),
        ensures
            final(self).wf(),
            final(self).sync_states() =~= Seq::<SyncStateView>::empty(),
            final(self).skills() == old(self).skills(),
            final(self).embeddings() == old(self).embeddings(),
            final(self).next_id_spec() == old(self).next_id_spec(),
    {
        self.sync_state.clear();
        proof {
            assert(self.embeddings == old(self).embeddings);
            assert(self.embeddings() == old(self).embeddings());
            assert(self.skills() == old(self).skills());
        }
    }

    /// Position of the record with the given identity, if any; the store
    /// being well formed, the position is the only one.
    fn find_index(&self, registry: &String, slug: &String) -> (r: Option<usize>)
        ensures
            match r {
                Some(i) => 0 <= i < self.skills().len() && key_at(
                    self.skills(),
                    i as int,
                    registry@,
                    slug@,
                ),
                None => !has_key(self.skills(), registry@, slug@),
            },
    {
        let n = self.skills.len();
        let mut i: usize = 0;
        while i < n
            invariant
                n == self.skills().len(),
                0 <= i <= n,
                forall|j: int| 0 <= j < i ==> !key_at(self.skills(), j, registry@, slug@),
            decreases n - i,
        {
            if self.skills[i].registry == *registry && self.skills[i].slug == *slug {
                return Some(i);
            }
            i = i + 1;
        }
        None
    }

    /// Insert-or-merge keyed by (registry, slug): a new identity is inserted
    /// under a fresh id, an existing row has every mutable field overwritten
    /// in place while its id stays. Returns the stable id either way.
    pub fn upsert_skill(&mut self, skill: &Skill) -> (id: i64)
        requires
            old(self).wf(),
            old(self).next_id_spec() < i64::MAX as int,
        ensures
            final(self).wf(),
            (final(self).skills(), final(self).next_id_spec(), id as int) == upsert_state(
                old(self).skills(),
                old(self).next_id_spec(),
                skill@,
            ),
            final(self).embeddings() == old(self).embeddings(),
            final(self).sync_states() == old(self).sync_states(),
    {
        let found = self.find_index(&skill.registry, &skill.slug);
        match found {
            Some(i) => {
                let existing = self.skills.remove(i);
                let row = Skill {
                    id: existing.id,
                    slug: existing.slug,
                    registry: existing.registry,
                    name: skill.name.clone(),
                    description: skill.description.clone(),
                    skill_md: skill.skill_md.clone(),
                    github_url: skill.github_url.clone(),
                    version: clone_opt_string(&skill.version),
                    stars: skill.stars,
                    trusted: skill.trusted,
                    updated_at: skill.updated_at,
                };
                let id = row.id;
                self.skills.insert(i, row);
                proof {
                    let s0 = old(self).skills();
                    assert(key_at(s0, i as int, skill@.registry, skill@.slug));
                    let k = key_index(s0, skill@.registry, skill@.slug);
                    assert(0 <= k < s0.len() && key_at(s0, k, skill@.registry, skill@.slug));
                    if k != i as int {
                        assert(key_eq(s0[k], s0[i as int]));
                        assert(false);
                    }
                    assert(self.skills() =~= s0.update(
                        i as int,
                        merged_view(s0[i as int], skill@),
                    ));
                    assert(self.embeddings == old(self).embeddings);
                    assert(self.sync_state == old(self).sync_state);
                    assert(self.embeddings() == old(self).embeddings());
                    assert(self.sync_states() == old(self).sync_states());
                    let s1 = self.skills();
                    assert forall|a: int, b: int| 0 <= a < b < s1.len() implies !key_eq(
                        #[trigger] s1[a],
                        #[trigger] s1[b],
                    ) by {
                        assert(!key_eq(s0[a], s0[b]));
                    }
                    assert forall|a: int| 0 <= a < s1.len() implies 1 <= (#[trigger] s1[a]).id
                        < self.next_id_spec() by {
                        assert(1 <= s0[a].id < old(self).next_id_spec());
                    }
                    assert forall|a: int, b: int| 0 <= a < b < s1.len() implies (
                    #[trigger] s1[a]).id != (#[trigger] s1[b]).id by {
                        assert(s0[a].id != s0[b].id);
                    }
                    assert(self.wf());
                }
                id
            },
            None => {
                let id = self.next_id;
                let row = Skill {
                    id: id,
                    slug: skill.slug.clone(),
                    registry: skill.registry.clone(),
                    name: skill.name.clone(),
                    description: skill.description.clone(),
                    skill_md: skill.skill_md.clone(),
                    github_url: skill.github_url.clone(),
                    version: clone_opt_string(&skill.version),
                    stars: skill.stars,
                    trusted: skill.trusted,
                    updated_at: skill.updated_at,
                };
                self.skills.push(row);
                self.next_id = self.next_id + 1;
                proof {
                    let s0 = old(self).skills();
                    assert(self.skills() =~= s0.push(
                        inserted_view(skill@, old(self).next_id_spec()),
                    ));
                    assert forall|a: int, b: int|
                        0 <= a < b < self.skills().len() implies !key_eq(
                        #[trigger] self.skills()[a],
                        #[trigger] self.skills()[b],
                    ) by {
                        if b == s0.len() {
                            assert(!key_at(s0, a, skill@.registry, skill@.slug));
                        }
                    }
                    assert(self.embeddings == old(self).embeddings);
                    assert(self.sync_state == old(self).sync_state);
                    assert(self.embeddings() == old(self).embeddings());
                    assert(self.sync_states() == old(self).sync_states());
                    let s1 = self.skills();
                    assert forall|a: int| 0 <= a < s1.len() implies 1 <= (#[trigger] s1[a]).id
                        < self.next_id_spec() by {
                        if a < s0.len() {
                            assert(1 <= s0[a].id < old(self).next_id_spec());
                        }
                    }
                    assert forall|a: int, b: int| 0 <= a < b < s1.len() implies (
                    #[trigger] s1[a]).id != (#[trigger] s1[b]).id by {
                        if b < s0.len() {
                            assert(s0[a].id != s0[b].id);
                        } else {
                            assert(1 <= s0[a].id < old(self).next_id_spec());
                        }
                    }
                    assert(self.wf());
                }
                id
            },
        }
    }

    /// Single-field update of the popularity metric, bypassing the full
    /// merge; a missing identity leaves the store untouched.
    pub fn update_stars(&mut self, registry: &String, slug: &String, stars: i64)
        requires
            old(self).wf(),
        ensures
            final(self).wf(),
            has_key(old(self).skills(), registry@, slug@) ==> final(self).skills() == old(
                self,
            ).skills().update(
                key_index(old(self).skills(), registry@, slug@),
                stars_updated(
                    old(self).skills()[key_index(old(self).skills(), registry@, slug@)],
                    stars as int,
                ),
            ),
            !has_key(old(self).skills(), registry@, slug@) ==> final(self).skills() == old(
                self,
            ).skills(),
            final(self).embeddings() == old(self).embeddings(),
            final(self).sync_states() == old(self).sync_states(),
            final(self).next_id_spec() == old(self).next_id_spec(),
    {
        let found = self.find_index(registry, slug);
        match found {
            Some(i) => {
                let existing = self.skills.remove(i);
                let row = Skill {
                    id: existing.id,
                    slug: existing.slug,
                    registry: existing.registry,
                    name: existing.name,
                    description: existing.description,
                    skill_md: existing.skill_md,
                    github_url: existing.github_url,
                    version: existing.version,
                    stars: stars,
                    trusted: existing.trusted,
                    updated_at: existing.updated_at,
                };
                self.skills.insert(i, row);
                proof {
                    let s0 = old(self).skills();
                    assert(key_at(s0, i as int, registry@, slug@));
                    let k = key_index(s0, registry@, slug@);
                    assert(0 <= k < s0.len() && key_at(s0, k, registry@, slug@));
                    if k != i as int {
                        assert(key_eq(s0[k], s0[i as int]));
                        assert(false);
                    }
                    assert(self.skills() =~= s0.update(
                        i as int,
                        stars_updated(s0[i as int], stars as int),
                    ));
                    assert(self.embeddings() == old(self).embeddings());
                    assert(self.sync_states() == old(self).sync_states());
                    let s1 = self.skills();
                    assert forall|a: int, b: int| 0 <= a < b < s1.len() implies !key_eq(
                        #[trigger] s1[a],
                        #[trigger] s1[b],
                    ) by {
                        assert(!key_eq(s0[a], s0[b]));
                    }
                    assert forall|a: int| 0 <= a < s1.len() implies 1 <= (#[trigger] s1[a]).id
                        < self.next_id_spec() by {
                        assert(1 <= s0[a].id < old(self).next_id_spec());
                    }
                    assert forall|a: int, b: int| 0 <= a < b < s1.len() implies (
                    #[trigger] s1[a]).id != (#[trigger] s1[b]).id by {
                        assert(s0[a].id != s0[b].id);
                    }
                    assert(self.wf());
                }
            },
            None => {
            },
        }
    }

    /// The record with the given identity, if present.
    pub fn get_skill(&self, registry: &String, slug: &String) -> (r: Option<Skill>)
        requires
            self.wf(),
        ensures
            match r {
                Some(s) => has_key(self.skills(), registry@, slug@) && s@ == self.skills()[
                    key_index(self.skills(), registry@, slug@)],
                None => !has_key(self.skills(), registry@, slug@),
            },
    {
        let found = self.find_index(registry, slug);
        match found {
            Some(i) => {
                let s = clone_skill(&self.skills[i]);
                proof {
                    let sv = self.skills();
                    let k = key_index(sv, registry@, slug@);
                    assert(0 <= k < sv.len() && key_at(sv, k, registry@, slug@));
                    if k != i as int {
                        assert(key_eq(sv[k], sv[i as int]));
                        assert(false);
                    }
                }
                Some(s)
            },
            None => None,
        }
    }

    /// The first record carrying the given slug, in store order; with the
    /// same slug under several registries the choice is this first match.
    pub fn get_skill_by_slug(&self, slug: &String) -> (r: Option<Skill>)
        ensures
            match r {
                Some(s) => exists|i: int|
                    0 <= i < self.skills().len() && slug_at(self.skills(), i, slug@) && s@
                        == self.skills()[i] && (forall|j: int|
                        0 <= j < i ==> !slug_at(self.skills(), j, slug@)),
                None => forall|j: int|
                    0 <= j < self.skills().len() ==> !slug_at(self.skills(), j, slug@),
            },
    {
        let n = self.skills.len();
        let mut i: usize = 0;
        while i < n
            invariant
                n == self.skills().len(),
                0 <= i <= n,
                forall|j: int| 0 <= j < i ==> !slug_at(self.skills(), j, slug@),
            decreases n - i,
        {
            if self.skills[i].slug == *slug {
                let s = clone_skill(&self.skills[i]);
                proof {
                    assert(0 <= i < self.skills().len() && slug_at(self.skills(), i as int, slug@)
                        && s@ == self.skills()[i as int] && (forall|j: int|
                        0 <= j < i ==> !slug_at(self.skills(), j, slug@)));
                }
                return Some(s);
            }
            i = i + 1;
        }
        None
    }

    /// The record stored under the given id, if any.
    pub fn get_skill_by_id(&self, id: i64) -> (r: Option<Skill>)
        requires
            self.wf(),
        ensures
            match r {
                Some(s) => exists|i: int|
                    0 <= i < self.skills().len() && (#[trigger] self.skills()[i]).id == id as int
                        && s@ == self.skills()[i],
                None => forall|i: int|
                    0 <= i < self.skills().len() ==> (#[trigger] self.skills()[i]).id != id as int,
            },
    {
        let n = self.skills.len();
        let mut i: usize = 0;
        while i < n
            invariant
                n == self.skills().len(),
                0 <= i <= n,
                forall|j: int| 0 <= j < i ==> (#[trigger] self.skills()[j]).id != id as int,
            decreases n - i,
        {
            if self.skills[i].id == id {
                let s = clone_skill(&self.skills[i]);
                proof {
                    assert(0 <= i < self.skills().len() && (self.skills()[i as int]).id == id as int
                        && s@ == self.skills()[i as int]);
                }
                return Some(s);
            }
            i = i + 1;
        }
        None
    }

    /// A copy of every record, in store order.
    pub fn get_all_skills(&self) -> (r: Vec<Skill>)
        ensures
            views_of(r@) == self.skills(),
    {
        let n = self.skills.len();
        let mut out: Vec<Skill> = Vec::new();
        let mut i: usize = 0;
        while i < n
            invariant
                n == self.skills().len(),
                0 <= i <= n,
                views_of(out@) == self.skills().take(i as int),
            decreases n - i,
        {
            let s = clone_skill(&self.skills[i]);
            out.push(s);
            proof {
                let sv = self.skills();
                assert(views_of(out@) =~= sv.take(i as int).push(sv[i as int]));
                assert(sv.take(i as int).push(sv[i as int]) =~= sv.take(i + 1 as int));
            }
            i = i + 1;
        }
        proof {
            assert(self.skills().take(n as int) =~= self.skills());
        }
        out
    }

    /// A copy of one registry's records, in store order.
    pub fn get_skills_by_registry(&self, registry: &String) -> (r: Vec<Skill>)
        ensures
            views_of(r@) == by_registry(self.skills(), registry@),
    {
        let n = self.skills.len();
        let mut out: Vec<Skill> = Vec::new();
        let mut i: usize = 0;
        proof {
            assert(self.skills().take(0) =~= Seq::<SkillView>::empty());
            reveal(Seq::filter);
        }
        while i < n
            invariant
                n == self.skills().len(),
                0 <= i <= n,
                views_of(out@) == by_registry(self.skills().take(i as int), registry@),
            decreases n - i,
        {
            proof {
                let sv = self.skills();
                reveal(Seq::filter);
                assert(sv.take(i + 1 as int).drop_last() =~= sv.take(i as int));
                assert(sv.take(i + 1 as int).last() == sv[i as int]);
            }
            if self.skills[i].registry == *registry {
                let s = clone_skill(&self.skills[i]);
                out.push(s);
                proof {
                    let sv = self.skills();
                    assert(views_of(out@) =~= by_registry(sv.take(i as int), registry@).push(
                        sv[i as int],
                    ));
                }
            }
            i = i + 1;
        }
        proof {
            assert(self.skills().take(n as int) =~= self.skills());
        }
        out
    }

    /// The slugs of the `clawdhub` registry's records, in store order.
    pub fn get_clawdhub_slugs(&self) -> (r: Vec<String>)
        ensures
            str_views(r@) == slugs_of(by_registry(self.skills(), "clawdhub"@)),
    {
        let reg = String::from_str("clawdhub");
        let rows = self.get_skills_by_registry(&reg);
        let n = rows.len();
        let mut out: Vec<String> = Vec::new();
        let mut i: usize = 0;
        while i < n
            invariant
                n == rows@.len(),
                views_of(rows@) == by_registry(self.skills(), "clawdhub"@),
                0 <= i <= n,
                str_views(out@) == slugs_of(views_of(rows@)).take(i as int),
            decreases n - i,
        {
            out.push(rows[i].slug.clone());
            proof {
                let sl = slugs_of(views_of(rows@));
                assert(str_views(out@) =~= sl.take(i as int).push(sl[i as int]));
                assert(sl.take(i as int).push(sl[i as int]) =~= sl.take(i + 1 as int));
            }
            i = i + 1;
        }
        proof {
            assert(slugs_of(views_of(rows@)).take(n as int) =~= slugs_of(views_of(rows@)));
        }
        out
    }

    /// Position of the registry's sync-state row, if any.
    fn find_sync(&self, registry: &String) -> (r: Option<usize>)
        ensures
            match r {
                Some(i) => 0 <= i < self.sync_states().len() && sync_at(
                    self.sync_states(),
                    i as int,
                    registry@,
                ),
                None => !has_sync(self.sync_states(), registry@),
            },
    {
        let n = self.sync_state.len();
        let mut i: usize = 0;
        while i < n
            invariant
                n == self.sync_states().len(),
                0 <= i <= n,
                forall|j: int| 0 <= j < i ==> !sync_at(self.sync_states(), j, registry@),
            decreases n - i,
        {
            if self.sync_state[i].registry == *registry {
                return Some(i);
            }
            i = i + 1;
        }
        None
    }

    /// The registry's last sync time and validator token, if a pass ran.
    pub fn get_last_sync(&self, registry: &String) -> (r: Option<(i64, Option<String>)>)
        requires
            self.wf(),
        ensures
            match r {
                Some(p) => has_sync(self.sync_states(), registry@) && p.0 as int
                    == self.sync_states()[sync_index(self.sync_states(), registry@)].last_sync
                    && crate::skill::opt_view(p.1) == self.sync_states()[sync_index(
                    self.sync_states(),
                    registry@,
                )].etag,
                None => !has_sync(self.sync_states(), registry@),
            },
    {
        let found = self.find_sync(registry);
        match found {
            Some(i) => {
                let t = self.sync_state[i].last_sync;
                let e = clone_opt_string(&self.sync_state[i].etag);
                proof {
                    let ss = self.sync_states();
                    let k = sync_index(ss, registry@);
                    assert(0 <= k < ss.len() && sync_at(ss, k, registry@));
                    if k != i as int {
                        assert(ss[k].registry == ss[i as int].registry);
                        assert(false);
                    }
                }
                Some((t, e))
            },
            None => None,
        }
    }

    /// Records the completion of a sync pass for one registry, replacing any
    /// earlier bookkeeping for it.
    pub fn set_last_sync(&mut self, registry: &String, timestamp: i64, etag: Option<String>)
        requires
            old(self).wf(),
        ensures
            final(self).wf(),
            final(self).sync_states() == set_sync(
                old(self).sync_states(),
                registry@,
                timestamp as int,
                crate::skill::opt_view(etag),
            ),
            final(self).skills() == old(self).skills(),
            final(self).embeddings() == old(self).embeddings(),
            final(self).next_id_spec() == old(self).next_id_spec(),
    {
        let found = self.find_sync(registry);
        match found {
            Some(i) => {
                let existing = self.sync_state.remove(i);
                let row = SyncState {
                    registry: existing.registry,
                    last_sync: timestamp,
                    etag: etag,
                };
                self.sync_state.insert(i, row);
                proof {
                    let ss = old(self).sync_states();
                    assert(sync_at(ss, i as int, registry@));
                    let k = sync_index(ss, registry@);
                    assert(0 <= k < ss.len() && sync_at(ss, k, registry@));
                    if k != i as int {
                        assert(ss[k].registry == ss[i as int].registry);
                        assert(false);
                    }
                    assert(self.sync_states() =~= set_sync(
                        ss,
                        registry@,
                        timestamp as int,
                        crate::skill::opt_view(etag),
                    ));
                    assert(self.skills() == old(self).skills());
                    assert(self.embeddings() == old(self).embeddings());
                    let s1 = self.sync_states();
                    assert forall|a: int, b: int| 0 <= a < b < s1.len() implies (
                    #[trigger] s1[a]).registry != (#[trigger] s1[b]).registry by {
                        assert(ss[a].registry != ss[b].registry);
                    }
                    assert(self.wf());
                }
            },
            None => {
                let row = SyncState {
                    registry: registry.clone(),
                    last_sync: timestamp,
                    etag: etag,
                };
                self.sync_state.push(row);
                proof {
                    let ss = old(self).sync_states();
                    assert(self.sync_states() =~= set_sync(
                        ss,
                        registry@,
                        timestamp as int,
                        crate::skill::opt_view(etag),
                    ));
                    assert(self.skills() == old(self).skills());
                    assert(self.embeddings() == old(self).embeddings());
                    let s1 = self.sync_states();
                    assert forall|a: int, b: int| 0 <= a < b < s1.len() implies (
                    #[trigger] s1[a]).registry != (#[trigger] s1[b]).registry by {
                        if b == ss.len() {
                            assert(!sync_at(ss, a, registry@));
                        } else {
                            assert(ss[a].registry != ss[b].registry);
                        }
                    }
                    assert(self.wf());
                }
            },
        }
    }

    /// The id the next inserted record will receive, as a machine integer.
    pub fn next_id_value(&self) -> (n: i64)
        ensures
            n as int == self.next_id_spec(),
    {
        self.next_id
    }

    /// How many records the store holds.
    pub fn skill_count(&self) -> (n: usize)
        ensures
            n == self.skills().len(),
    {
        self.skills.len()
    }

    /// A borrow of the record at one store position.
    pub fn skill_at(&self, i: usize) -> (r: &Skill)
        requires
            i < self.skills().len(),
        ensures
            r@ == self.skills()[i as int],
    {
        &self.skills[i]
    }

    /// Every stored popularity metric fits the machine integer it is kept
    /// in.
    pub proof fn lemma_stars_in_range(&self)
        ensures
            forall|i: int|
                0 <= i < self.skills().len() ==> i64::MIN as int <= (
                #[trigger] self.skills()[i]).stars <= i64::MAX as int,
    {
        assert forall|i: int|
            0 <= i < self.skills().len() implies i64::MIN as int <= (
        #[trigger] self.skills()[i]).stars <= i64::MAX as int by {
            assert(self.skills()[i] == self.skills@[i]@);
        }
    }

    /// Position of the embedding row stored under the record id, if any.
    fn find_emb(&self, id: i64) -> (r: Option<usize>)
        ensures
            match r {
                Some(i) => 0 <= i < self.embeddings().len() && (self.embeddings()[i as int]).0
                    == id as int,
                None => !has_emb(self.embeddings(), id as int),
            },
    {
        let n = self.embeddings.len();
        let mut i: usize = 0;
        while i < n
            invariant
                n == self.embeddings().len(),
                0 <= i <= n,
                forall|j: int| 0 <= j < i ==> (#[trigger] self.embeddings()[j]).0 != id as int,
            decreases n - i,
        {
            if self.embeddings[i].0 == id {
                return Some(i);
            }
            i = i + 1;
        }
        None
    }

    /// True when an embedding vector is stored under the record id.
    pub fn has_embedding(&self, id: i64) -> (r: bool)
        ensures
            r == has_emb(self.embeddings(), id as int),
    {
        match self.find_emb(id) {
            Some(_) => true,
            None => false,
        }
    }

    /// Stores (or replaces) the embedding vector of one record. Returns
    /// false, leaving the store untouched, when the vector does not have the
    /// model dimension or a coordinate lies outside the fixed-point range.
    pub fn store_embedding(&mut self, id: i64, v: &Vec<i32>) -> (r: bool)
        requires
            old(self).wf(),
        ensures
            final(self).wf(),
            r == bounded_vector(int_vec(v@)),
            r ==> final(self).embeddings() == emb_upsert(
                old(self).embeddings(),
                id as int,
                int_vec(v@),
            ),
            !r ==> final(self).embeddings() == old(self).embeddings(),
            final(self).skills() == old(self).skills(),
            final(self).sync_states() == old(self).sync_states(),
            final(self).next_id_spec() == old(self).next_id_spec(),
    {
        if !vector_in_range(v) {
            return false;
        }
        let copy = copy_i32_vec(v);
        let found = self.find_emb(id);
        match found {
            Some(i) => {
                let _ = self.embeddings.remove(i);
                self.embeddings.insert(i, (id, copy));
                proof {
                    let e0 = old(self).embeddings();
                    assert((e0[i as int]).0 == id as int);
                    let k = emb_index(e0, id as int);
                    assert(0 <= k < e0.len() && (e0[k]).0 == id as int);
                    if k != i as int {
                        assert((e0[k]).0 == (e0[i as int]).0);
                        assert(false);
                    }
                    assert(self.embeddings() =~= e0.update(i as int, (id as int, int_vec(v@))));
                    assert(self.skills() == old(self).skills());
                    assert(self.sync_states() == old(self).sync_states());
                    let e1 = self.embeddings();
                    assert forall|a: int, b: int| 0 <= a < b < e1.len() implies (
                    #[trigger] e1[a]).0 != (#[trigger] e1[b]).0 by {
                        assert((e0[a]).0 != (e0[b]).0);
                    }
                    assert forall|a: int| 0 <= a < e1.len() implies bounded_vector(
                        (#[trigger] e1[a]).1,
                    ) by {
                        assert(bounded_vector((e0[a]).1));
                    }
                    assert(self.wf());
                }
            },
            None => {
                self.embeddings.push((id, copy));
                proof {
                    let e0 = old(self).embeddings();
                    assert(self.embeddings() =~= e0.push((id as int, int_vec(v@))));
                    assert(self.skills() == old(self).skills());
                    assert(self.sync_states() == old(self).sync_states());
                    let e1 = self.embeddings();
                    assert forall|a: int, b: int| 0 <= a < b < e1.len() implies (
                    #[trigger] e1[a]).0 != (#[trigger] e1[b]).0 by {
                        if b == e0.len() {
                            assert(!has_emb(e0, id as int));
                            assert((e0[a]).0 != id as int);
                        } else {
                            assert((e0[a]).0 != (e0[b]).0);
                        }
                    }
                    assert forall|a: int| 0 <= a < e1.len() implies bounded_vector(
                        (#[trigger] e1[a]).1,
                    ) by {
                        if a < e0.len() {
                            assert(bounded_vector((e0[a]).1));
                        }
                    }
                    assert(self.wf());
                }
            },
        }
        true
    }

    /// A copy of every record that has no stored embedding yet, in store
    /// order; these are the inputs of the next encoding pass.
    pub fn get_skills_needing_embedding(&self) -> (r: Vec<Skill>)
        ensures
            views_of(r@) == needing_embedding(self.skills(), self.embeddings()),
    {
        let n = self.skills.len();
        let mut out: Vec<Skill> = Vec::new();
        let mut i: usize = 0;
        proof {
            assert(self.skills().take(0) =~= Seq::<SkillView>::empty());
            reveal(Seq::filter);
        }
        while i < n
            invariant
                n == self.skills().len(),
                0 <= i <= n,
                views_of(out@) == needing_embedding(
                    self.skills().take(i as int),
                    self.embeddings(),
                ),
            decreases n - i,
        {
            proof {
                let sv = self.skills();
                reveal(Seq::filter);
                assert(sv.take(i + 1 as int).drop_last() =~= sv.take(i as int));
                assert(sv.take(i + 1 as int).last() == sv[i as int]);
            }
            if !self.has_embedding(self.skills[i].id) {
                let s = clone_skill(&self.skills[i]);
                out.push(s);
                proof {
                    let sv = self.skills();
                    assert(views_of(out@) =~= needing_embedding(
                        sv.take(i as int),
                        self.embeddings(),
                    ).push(sv[i as int]));
                }
            }
            i = i + 1;
        }
        proof {
            assert(self.skills().take(n as int) =~= self.skills());
        }
        out
    }
}

/// True when one ranked hit of the nearest-neighbour scan is honest: some
/// stored record carries its id, passes the registry filter, has a stored
/// embedding, and lies at exactly the reported squared distance.
pub open spec fn vector_hit(
    s: Seq<SkillView>,
    e: Seq<(int, Seq<int>)>,
    q: Seq<int>,
    reg: Option<Seq<char>>,
    h: (i64, i64),
) -> bool {
    exists|i: int|
        0 <= i < s.len() && (#[trigger] s[i]).id == h.0 as int && reg_match(s[i], reg) && has_emb(
            e,
            s[i].id,
        ) && h.1 as int == sq_dist(q, emb_of(e, s[i].id))
}

/// Squared Euclidean distance of two in-range fixed-point vectors.
fn sq_dist_exec(a: &Vec<i32>, b: &Vec<i32>) -> (d: i64)
    requires
        bounded_vector(int_vec(a@)),
        bounded_vector(int_vec(b@)),
    ensures
        d as int == sq_dist(int_vec(a@), int_vec(b@)),
        0 <= d <= DIST_MAX,
{
    let n = a.len();
    let mut acc: i64 = 0;
    let mut i: usize = 0;
    while i < n
        invariant
            bounded_vector(int_vec(a@)),
            bounded_vector(int_vec(b@)),
            n == a@.len(),
            a@.len() == b@.len(),
            n == EMBED_DIM,
            0 <= i <= n,
            acc as int == sq_dist_to(int_vec(a@), int_vec(b@), i as int),
            0 <= acc <= (i as int) * 4000000000000,
        decreases n - i,
    {
        let d = (a[i] as i64) - (b[i] as i64);
        proof {
            assert(int_vec(a@)[i as int] == a@[i as int] as int);
            assert(int_vec(b@)[i as int] == b@[i as int] as int);
            assert(-2000000 <= d as int <= 2000000);
            assert(0 <= (d as int) * (d as int) <= 4000000000000) by (nonlinear_arith)
                requires
                    -2000000 <= d as int <= 2000000,
            ;
            assert((i as int) * 4000000000000 + 4000000000000 == (i as int + 1) * 4000000000000)
                by (nonlinear_arith);
            assert((i as int + 1) * 4000000000000 <= 384 * 4000000000000) by (nonlinear_arith)
                requires
                    i as int + 1 <= 384,
            ;
        }
        acc = acc + d * d;
        i = i + 1;
    }
    acc
}

impl Database {
    /// Nearest-neighbour scan over the stored embeddings: every record that
    /// passes the registry filter and has an embedding is ranked by squared
    /// distance to the query, ascending, and the closest `limit` are handed
    /// back as (record id, distance) pairs. Ties are broken arbitrarily.
    pub fn vector_search(&self, query: &Vec<i32>, limit: usize, registry: Option<&String>) -> (r:
        Vec<(i64, i64)>)
        requires
            self.wf(),
            bounded_vector(int_vec(query@)),
        ensures
            ({
                let cands = vector_candidates(
                    self.skills(),
                    self.embeddings(),
                    int_vec(query@),
                    opt_reg(registry),
                );
                &&& r@.len() == (if (limit as int) < cands.len() {
                    limit as int
                } else {
                    cands.len() as int
                })
                &&& (forall|x: int, y: int|
                    0 <= x < y < r@.len() ==> (#[trigger] r@[x]).1 <= (#[trigger] r@[y]).1)
                &&& (forall|k: int|
                    0 <= k < r@.len() ==> vector_hit(
                        self.skills(),
                        self.embeddings(),
                        int_vec(query@),
                        opt_reg(registry),
                        #[trigger] r@[k],
                    ))
                &&& (exists|full: Seq<KeyPair>|
                    full.to_multiset() == cands.to_multiset() && crate::rank::sorted_asc(full) && (
                    forall|k: int|
                        0 <= k < r@.len() ==> 0 <= (#[trigger] full[k]).1 < self.skills().len()
                            && r@[k].0 as int == self.skills()[full[k].1 as int].id && r@[k].1
                            == full[k].0))
            }),
    {
        let ghost q = int_vec(query@);
        let ghost regv = opt_reg(registry);
        let mut pairs: Vec<KeyPair> = Vec::new();
        let n = self.skills.len();
        let mut i: usize = 0;
        proof {
            assert(self.skills().take(0) =~= Seq::<SkillView>::empty());
        }
        while i < n
            invariant
                self.wf(),
                bounded_vector(int_vec(query@)),
                q == int_vec(query@),
                regv == opt_reg(registry),
                n == self.skills().len(),
                0 <= i <= n,
                pairs@ == vector_candidates(
                    self.skills().take(i as int),
                    self.embeddings(),
                    q,
                    regv,
                ),
            decreases n - i,
        {
            proof {
                let sv = self.skills();
                assert(sv.take(i + 1 as int).drop_last() =~= sv.take(i as int));
                assert(sv.take(i + 1 as int).last() == sv[i as int]);
            }
            let passes = match registry {
                Some(g) => self.skills[i].registry == *g,
                None => true,
            };
            if passes {
                match self.find_emb(self.skills[i].id) {
                    Some(j) => {
                        proof {
                            let e = self.embeddings();
                            let id = self.skills()[i as int].id;
                            assert((e[j as int]).0 == id);
                            let k = emb_index(e, id);
                            assert(0 <= k < e.len() && (e[k]).0 == id);
                            if k != j as int {
                                assert((e[k]).0 == (e[j as int]).0);
                                assert(false);
                            }
                            assert(emb_of(e, id) == int_vec(self.embeddings@[j as int].1@));
                            assert(bounded_vector(int_vec(self.embeddings@[j as int].1@)));
                        }
                        let d = sq_dist_exec(query, &self.embeddings[j].1);
                        pairs.push((d, i));
                        proof {
                            let sv = self.skills();
                            let id = sv[i as int].id;
                            assert(d as int == sq_dist(q, emb_of(self.embeddings(), id)));
                            assert(d == sq_dist(q, emb_of(self.embeddings(), id)) as i64);
                            assert(pairs@ =~= vector_candidates(
                                sv.take(i as int),
                                self.embeddings(),
                                q,
                                regv,
                            ).push((sq_dist(q, emb_of(self.embeddings(), id)) as i64, i as usize)));
                        }
                    },
                    None => {
                    },
                }
            }
            i = i + 1;
        }
        proof {
            assert(self.skills().take(n as int) =~= self.skills());
        }
        let ghost cands = vector_candidates(self.skills(), self.embeddings(), q, regv);
        proof {
            lemma_vector_candidates_ok(self.skills(), self.embeddings(), q, regv);
        }
        let mut sorted = sort_pairs(pairs, true);
        let ghost full = sorted@;
        let k = take_count(limit, sorted.len());
        sorted.truncate(k);
        proof {
            assert(sorted@ == full.take(k as int));
            assert forall|t: int| 0 <= t < full.len() implies candidate_ok(
                self.skills(),
                self.embeddings(),
                q,
                regv,
                #[trigger] full[t],
            ) by {
                assert(full.contains(full[t]));
                assert(full.to_multiset().count(full[t]) > 0);
                assert(cands.to_multiset().count(full[t]) > 0);
                assert(cands.contains(full[t]));
                let idx = choose|idx: int| 0 <= idx < cands.len() && cands[idx] == full[t];
                assert(candidate_ok(self.skills(), self.embeddings(), q, regv, cands[idx]));
            }
        }
        let m = sorted.len();
        let mut out: Vec<(i64, i64)> = Vec::new();
        let mut t: usize = 0;
        while t < m
            invariant
                self.wf(),
                q == int_vec(query@),
                regv == opt_reg(registry),
                m == sorted@.len(),
                m <= full.len(),
                sorted@ == full.take(m as int),
                0 <= t <= m,
                out@.len() == t,
                forall|x: int|
                    0 <= x < full.len() ==> candidate_ok(
                        self.skills(),
                        self.embeddings(),
                        q,
                        regv,
                        #[trigger] full[x],
                    ),
                forall|x: int|
                    0 <= x < t ==> (#[trigger] out@[x]).0 as int == self.skills()[full[x].1 as int].id
                        && out@[x].1 == full[x].0,
            decreases m - t,
        {
            let p = sorted[t];
            proof {
                assert(full.take(m as int)[t as int] == full[t as int]);
                assert(candidate_ok(self.skills(), self.embeddings(), q, regv, p));
            }
            out.push((self.skills[p.1].id, p.0));
            t = t + 1;
        }
        proof {
            let sv = self.skills();
            let e = self.embeddings();
            assert forall|x: int, y: int| 0 <= x < y < out@.len() implies (#[trigger] out@[x]).1 <= (
            #[trigger] out@[y]).1 by {
                assert(crate::rank::sorted_asc(full));
                assert(full[x].0 <= full[y].0);
            }
            assert forall|x: int| 0 <= x < out@.len() implies vector_hit(
                sv,
                e,
                q,
                regv,
                #[trigger] out@[x],
            ) by {
                let i0 = full[x].1 as int;
                assert(candidate_ok(sv, e, q, regv, full[x]));
                assert(0 <= i0 < sv.len() && sv[i0].id == out@[x].0 as int && reg_match(sv[i0], regv)
                    && has_emb(e, sv[i0].id) && out@[x].1 as int == sq_dist(q, emb_of(e, sv[i0].id)));
            }
        }
        out
    }
}

/// The (popularity, record position) pairs the lexical scan ranks: one pair
/// per record that matches the query, in store order.
pub open spec fn fuzzy_candidates(s: Seq<SkillView>, q: Seq<char>) -> Seq<KeyPair>
    decreases s.len(),
{
    if s.len() == 0 {
        Seq::empty()
    } else {
        let prefix = fuzzy_candidates(s.drop_last(), q);
        let i = s.len() - 1;
        if crate::text::matches_query(s[i as int], q) {
            prefix.push((s[i as int].stars as i64, i as usize))
        } else {
            prefix
        }
    }
}

/// The view `v` is one of the stored records, and that record matches the
/// query.
pub open spec fn stored_match(s: Seq<SkillView>, q: Seq<char>, v: SkillView) -> bool {
    exists|i: int|
        0 <= i < s.len() && #[trigger] s[i] == v && crate::text::matches_query(s[i], q)
}

/// What it means for one (popularity, record position) pair to be a true
/// lexical-scan candidate.
pub open spec fn fuzzy_candidate_ok(s: Seq<SkillView>, q: Seq<char>, p: KeyPair) -> bool {
    &&& 0 <= p.1 < s.len()
    &&& crate::text::matches_query(s[p.1 as int], q)
    &&& p.0 as int == s[p.1 as int].stars
}

pub proof fn lemma_fuzzy_candidates_ok(s: Seq<SkillView>, q: Seq<char>)
    requires
        s.len() <= usize::MAX as int,
        forall|i: int|
            0 <= i < s.len() ==> i64::MIN as int <= (#[trigger] s[i]).stars <= i64::MAX as int,
    ensures
        forall|j: int|
            0 <= j < fuzzy_candidates(s, q).len() ==> fuzzy_candidate_ok(
                s,
                q,
                #[trigger] fuzzy_candidates(s, q)[j],
            ),
    decreases s.len(),
{
    if s.len() > 0 {
        lemma_fuzzy_candidates_ok(s.drop_last(), q);
        let cands = fuzzy_candidates(s, q);
        let prefix = fuzzy_candidates(s.drop_last(), q);
        assert forall|j: int| 0 <= j < cands.len() implies fuzzy_candidate_ok(
            s,
            q,
            #[trigger] cands[j],
        ) by {
            if j < prefix.len() {
                assert(fuzzy_candidate_ok(s.drop_last(), q, prefix[j]));
                assert(s.drop_last()[prefix[j].1 as int] == s[prefix[j].1 as int]);
            }
        }
    }
}

/// A query that some record matches always yields a candidate.
pub proof fn lemma_fuzzy_candidates_complete(s: Seq<SkillView>, q: Seq<char>, i: int)
    requires
        0 <= i < s.len(),
        crate::text::matches_query(s[i], q),
    ensures
        fuzzy_candidates(s, q).len() > 0,
    decreases s.len(),
{
    if i == s.len() - 1 {
    } else {
        assert(s.drop_last()[i] == s[i]);
        lemma_fuzzy_candidates_complete(s.drop_last(), q, i);
    }
}

impl Database {
    /// Direct lexical scan over the stored text fields: every record that
    /// the query occurs in (ignoring ASCII case) is ranked by popularity,
    /// descending, and the best `limit` are handed back. Used when no
    /// embeddings exist. Ties are broken arbitrarily.
    #[verifier::rlimit(100)]
    #[verifier::spinoff_prover]
    pub fn fuzzy_search(&self, query: &str, limit: usize) -> (r: Vec<Skill>)
        requires
            self.wf(),
        ensures
            r@.len() == (if (limit as int) < fuzzy_candidates(self.skills(), query@).len() {
                limit as int
            } else {
                fuzzy_candidates(self.skills(), query@).len() as int
            }),
            forall|x: int, y: int|
                0 <= x < y < r@.len() ==> (#[trigger] views_of(r@)[x]).stars >= (
                #[trigger] views_of(r@)[y]).stars,
            forall|k: int|
                0 <= k < r@.len() ==> stored_match(self.skills(), query@, #[trigger] views_of(r@)[k]),
            exists|full: Seq<KeyPair>|
                full.to_multiset() == fuzzy_candidates(self.skills(), query@).to_multiset()
                    && crate::rank::sorted_desc(full) && (forall|k: int|
                    0 <= k < r@.len() ==> 0 <= (#[trigger] full[k]).1 < self.skills().len()
                        && views_of(r@)[k] == self.skills()[full[k].1 as int]),
    {
        let ghost qv = query@;
        let mut pairs: Vec<KeyPair> = Vec::new();
        let n = self.skills.len();
        let mut i: usize = 0;
        proof {
            assert(self.skills().take(0) =~= Seq::<SkillView>::empty());
        }
        while i < n
            invariant
                self.wf(),
                qv == query@,
                n == self.skills().len(),
                0 <= i <= n,
                pairs@ == fuzzy_candidates(self.skills().take(i as int), qv),
            decreases n - i,
        {
            proof {
                let sv = self.skills();
                assert(sv.take(i + 1 as int).drop_last() =~= sv.take(i as int));
                assert(sv.take(i + 1 as int).last() == sv[i as int]);
            }
            if crate::text::skill_matches(&self.skills[i], query) {
                pairs.push((self.skills[i].stars, i));
                proof {
                    let sv = self.skills();
                    assert(self.skills@[i as int].stars == sv[i as int].stars as i64);
                    assert(pairs@ =~= fuzzy_candidates(sv.take(i as int), qv).push(
                        (sv[i as int].stars as i64, i as usize),
                    ));
                }
            }
            i = i + 1;
        }
        proof {
            assert(self.skills().take(n as int) =~= self.skills());
            assert forall|x: int|
                0 <= x < self.skills().len() implies i64::MIN as int <= (
            #[trigger] self.skills()[x]).stars <= i64::MAX as int by {
                assert(self.skills()[x] == self.skills@[x]@);
            }
            lemma_fuzzy_candidates_ok(self.skills(), qv);
        }
        let ghost cands = fuzzy_candidates(self.skills(), qv);
        let mut sorted = sort_pairs(pairs, false);
        let ghost full = sorted@;
        let k = take_count(limit, sorted.len());
        sorted.truncate(k);
        proof {
            assert(sorted@ == full.take(k as int));
            assert forall|t: int| 0 <= t < full.len() implies fuzzy_candidate_ok(
                self.skills(),
                qv,
                #[trigger] full[t],
            ) by {
                assert(full.contains(full[t]));
                assert(full.to_multiset().count(full[t]) > 0);
                assert(cands.to_multiset().count(full[t]) > 0);
                assert(cands.contains(full[t]));
                let idx = choose|idx: int| 0 <= idx < cands.len() && cands[idx] == full[t];
                assert(fuzzy_candidate_ok(self.skills(), qv, cands[idx]));
            }
        }
        let m = sorted.len();
        let mut out: Vec<Skill> = Vec::new();
        let mut t: usize = 0;
        while t < m
            invariant
                self.wf(),
                qv == query@,
                m == sorted@.len(),
                m <= full.len(),
                sorted@ == full.take(m as int),
                0 <= t <= m,
                out@.len() == t,
                forall|x: int|
                    0 <= x < full.len() ==> fuzzy_candidate_ok(self.skills(), qv, #[trigger] full[x]),
                forall|x: int|
                    0 <= x < t ==> #[trigger] views_of(out@)[x] == self.skills()[full[x].1 as int],
            decreases m - t,
        {
            let p = sorted[t];
            proof {
                assert(full.take(m as int)[t as int] == full[t as int]);
                assert(fuzzy_candidate_ok(self.skills(), qv, p));
            }
            let ghost out0 = out@;
            let s = clone_skill(&self.skills[p.1]);
            out.push(s);
            proof {
                assert(out@ == out0.push(s));
                assert forall|x: int| 0 <= x < t + 1 implies #[trigger] views_of(out@)[x]
                    == self.skills()[full[x].1 as int] by {
                    assert(views_of(out@)[x] == out@[x]@);
                    if x < t {
                        assert(out@[x] == out0[x]);
                        assert(views_of(out0)[x] == out0[x]@);
                    }
                }
            }
            t = t + 1;
        }
        proof {
            let sv = self.skills();
            assert forall|x: int, y: int| 0 <= x < y < out@.len() implies (
            #[trigger] views_of(out@)[x]).stars >= (#[trigger] views_of(out@)[y]).stars by {
                assert(crate::rank::sorted_desc(full));
                assert(full[x].0 >= full[y].0);
                assert(views_of(out@)[x] == sv[full[x].1 as int]);
                assert(views_of(out@)[y] == sv[full[y].1 as int]);
                assert(full[x].0 as int == sv[full[x].1 as int].stars);
                assert(full[y].0 as int == sv[full[y].1 as int].stars);
            }
            assert forall|k2: int| 0 <= k2 < out@.len() implies stored_match(
                sv,
                qv,
                #[trigger] views_of(out@)[k2],
            ) by {
                let i2 = full[k2].1 as int;
                assert(0 <= i2 < sv.len() && sv[i2] == views_of(out@)[k2]
                    && crate::text::matches_query(sv[i2], qv));
            }
            assert(full.to_multiset() == cands.to_multiset() && crate::rank::sorted_desc(full) && (
            forall|k2: int|
                0 <= k2 < out@.len() ==> 0 <= (#[trigger] full[k2]).1 < self.skills().len()
                    && views_of(out@)[k2] == self.skills()[full[k2].1 as int]));
        }
        out
    }
}

/// True when every coordinate lies in the fixed-point range and the vector
/// has the model dimension.
pub fn vector_in_range(v: &Vec<i32>) -> (r: bool)
    ensures
        r == bounded_vector(int_vec(v@)),
{
    if v.len() != EMBED_DIM {
        return false;
    }
    let n = v.len();
    let mut i: usize = 0;
    while i < n
        invariant
            n == v@.len(),
            0 <= i <= n,
            forall|j: int|
                0 <= j < i ==> -(MAX_COORD as int) <= #[trigger] int_vec(v@)[j] <= MAX_COORD as int,
        decreases n - i,
    {
        if v[i] < -MAX_COORD || v[i] > MAX_COORD {
            proof {
                assert(int_vec(v@)[i as int] < -(MAX_COORD as int) || int_vec(v@)[i as int]
                    > MAX_COORD as int);
            }
            return false;
        }
        i = i + 1;
    }
    true
}

/// An element-for-element copy of a coordinate vector.
fn copy_i32_vec(v: &Vec<i32>) -> (r: Vec<i32>)
    ensures
        r@ == v@,
{
    let n = v.len();
    let mut out: Vec<i32> = Vec::new();
    let mut i: usize = 0;
    while i < n
        invariant
            n == v@.len(),
            0 <= i <= n,
            out@ == v@.take(i as int),
        decreases n - i,
    {
        out.push(v[i]);
        proof {
            assert(out@ =~= v@.take(i + 1 as int));
        }
        i = i + 1;
    }
    proof {
        assert(v@.take(n as int) =~= v@);
    }
    out
}

/// The registry filter as a mathematical value.
pub open spec fn opt_reg(registry: Option<&String>) -> Option<Seq<char>> {
    match registry {
        Some(g) => Some(g@),
        None => None,
    }
}

/// True when the record passes the registry filter.
pub open spec fn reg_match(r: SkillView, registry: Option<Seq<char>>) -> bool {
    match registry {
        Some(g) => r.registry == g,
        None => true,
    }
}

/// Sum of squared coordinate differences over the first `n` positions.
pub open spec fn sq_dist_to(a: Seq<int>, b: Seq<int>, n: int) -> int
    decreases n,
{
    if n <= 0 {
        0
    } else {
        sq_dist_to(a, b, n - 1) + (a[n - 1] - b[n - 1]) * (a[n - 1] - b[n - 1])
    }
}

/// Squared Euclidean distance between two vectors of the model dimension.
pub open spec fn sq_dist(a: Seq<int>, b: Seq<int>) -> int {
    sq_dist_to(a, b, a.len() as int)
}

/// Largest value a squared distance between bounded vectors can take.
pub const DIST_MAX: i64 = 1536000000000000;

pub proof fn lemma_sq_dist_to_bounds(a: Seq<int>, b: Seq<int>, n: int)
    requires
        forall|i: int| 0 <= i < a.len() ==> -(MAX_COORD as int) <= #[trigger] a[i] <= MAX_COORD as int,
        forall|i: int| 0 <= i < b.len() ==> -(MAX_COORD as int) <= #[trigger] b[i] <= MAX_COORD as int,
        0 <= n <= a.len(),
        n <= b.len(),
    ensures
        0 <= sq_dist_to(a, b, n) <= n * 4000000000000,
    decreases n,
{
    if n > 0 {
        lemma_sq_dist_to_bounds(a, b, n - 1);
        let d = a[n - 1] - b[n - 1];
        assert(-2000000 <= d <= 2000000);
        assert(0 <= d * d <= 4000000000000) by (nonlinear_arith)
            requires
                -2000000 <= d <= 2000000,
        ;
        assert((n - 1) * 4000000000000 + 4000000000000 == n * 4000000000000) by (nonlinear_arith);
    }
}

/// The distance of two bounded vectors is exact in `i64` and nonnegative.
pub proof fn lemma_sq_dist_bounds(a: Seq<int>, b: Seq<int>)
    requires
        bounded_vector(a),
        bounded_vector(b),
    ensures
        0 <= sq_dist(a, b) <= DIST_MAX as int,
{
    lemma_sq_dist_to_bounds(a, b, a.len() as int);
    assert(a.len() as int * 4000000000000 <= 384 * 4000000000000) by (nonlinear_arith)
        requires
            a.len() as int <= 384,
    ;
}

/// The (distance, record position) pairs the nearest-neighbour scan ranks:
/// one pair per record that passes the registry filter and has a stored
/// embedding, in store order.
pub open spec fn vector_candidates(
    s: Seq<SkillView>,
    e: Seq<(int, Seq<int>)>,
    q: Seq<int>,
    reg: Option<Seq<char>>,
) -> Seq<KeyPair>
    decreases s.len(),
{
    if s.len() == 0 {
        Seq::empty()
    } else {
        let prefix = vector_candidates(s.drop_last(), e, q, reg);
        let i = s.len() - 1;
        if reg_match(s[i as int], reg) && has_emb(e, s[i as int].id) {
            prefix.push((sq_dist(q, emb_of(e, s[i as int].id)) as i64, i as usize))
        } else {
            prefix
        }
    }
}

/// Law: with no stored embeddings the nearest-neighbour scan has nothing
/// to rank, so retrieval always takes the lexical fallback.
pub proof fn lemma_no_embeddings_no_candidates(
    s: Seq<SkillView>,
    e: Seq<(int, Seq<int>)>,
    q: Seq<int>,
    reg: Option<Seq<char>>,
)
    requires
        e.len() == 0,
    ensures
        vector_candidates(s, e, q, reg).len() == 0,
    decreases s.len(),
{
    if s.len() > 0 {
        lemma_no_embeddings_no_candidates(s.drop_last(), e, q, reg);
        assert(!has_emb(e, s[s.len() - 1].id));
    }
}

/// What it means for one (distance, record position) pair to be a true
/// nearest-neighbour candidate of the store.
pub open spec fn candidate_ok(
    s: Seq<SkillView>,
    e: Seq<(int, Seq<int>)>,
    q: Seq<int>,
    reg: Option<Seq<char>>,
    p: KeyPair,
) -> bool {
    &&& 0 <= p.1 < s.len()
    &&& reg_match(s[p.1 as int], reg)
    &&& has_emb(e, s[p.1 as int].id)
    &&& p.0 as int == sq_dist(q, emb_of(e, s[p.1 as int].id))
    &&& 0 <= p.0 <= DIST_MAX
}

pub proof fn lemma_vector_candidates_ok(
    s: Seq<SkillView>,
    e: Seq<(int, Seq<int>)>,
    q: Seq<int>,
    reg: Option<Seq<char>>,
)
    requires
        bounded_vector(q),
        forall|i: int| 0 <= i < e.len() ==> bounded_vector((#[trigger] e[i]).1),
        s.len() <= usize::MAX as int,
    ensures
        forall|j: int|
            0 <= j < vector_candidates(s, e, q, reg).len() ==> candidate_ok(
                s,
                e,
                q,
                reg,
                #[trigger] vector_candidates(s, e, q, reg)[j],
            ),
    decreases s.len(),
{
    if s.len() > 0 {
        lemma_vector_candidates_ok(s.drop_last(), e, q, reg);
        let i = s.len() - 1;
        let cands = vector_candidates(s, e, q, reg);
        let prefix = vector_candidates(s.drop_last(), e, q, reg);
        assert forall|j: int| 0 <= j < cands.len() implies candidate_ok(
            s,
            e,
            q,
            reg,
            #[trigger] cands[j],
        ) by {
            if j < prefix.len() {
                assert(candidate_ok(s.drop_last(), e, q, reg, prefix[j]));
                assert(s.drop_last()[prefix[j].1 as int] == s[prefix[j].1 as int]);
            } else {
                assert(reg_match(s[i as int], reg) && has_emb(e, s[i as int].id));
                let k = emb_index(e, s[i as int].id);
                assert(0 <= k < e.len() && (e[k]).0 == s[i as int].id);
                lemma_sq_dist_bounds(q, emb_of(e, s[i as int].id));
            }
        }
    }
}

/// Coordinates of a stored or query vector lie in the fixed-point range and
/// the vector has the model dimension, so that squared distances fit `i64`.
pub open spec fn bounded_vector(v: Seq<int>) -> bool {
    v.len() == EMBED_DIM as int && forall|i: int|
        0 <= i < v.len() ==> -(MAX_COORD as int) <= #[trigger] v[i] <= MAX_COORD as int
}

/// Dimension every embedding vector must have.
pub const EMBED_DIM: usize = 384;

/// Largest coordinate magnitude a vector may carry, in thousandths.
pub const MAX_COORD: i32 = 1000000;

} // verus!
