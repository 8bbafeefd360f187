//! The keyed store: a table of skill records keyed by `(registry, slug)`,
//! with last-write-wins upsert semantics, point and bulk lookups, a
//! targeted star-count update, and per-registry sync bookkeeping.
//!
//! Rows are never deleted by an upsert; a row's internal id is assigned
//! once, on first insert, and never changes afterwards.

use vstd::prelude::*;
use vstd::string::*;
use crate::text::str_eq;

verus! {

/// One discoverable skill, uniquely identified by `(registry, slug)`.
#[derive(Debug, Clone)]
pub struct Skill {
    pub id: i64,
    pub slug: String,
    pub name: String,
    pub registry: String,
    pub description: String,
    pub skill_md: String,
    pub github_url: String,
    pub version: Option<String>,
    pub stars: i64,
    pub trusted: bool,
    pub updated_at: i64,
}

/// The mathematical value of a `Skill`.
pub struct SkillView {
    pub id: int,
    pub slug: Seq<char>,
    pub name: Seq<char>,
    pub registry: Seq<char>,
    pub description: Seq<char>,
    pub skill_md: Seq<char>,
    pub github_url: Seq<char>,
    pub version: Option<Seq<char>>,
    pub stars: int,
    pub trusted: bool,
    pub updated_at: int,
}

impl View for Skill {
    type V = SkillView;

    open spec fn view(&self) -> SkillView {
        SkillView {
            id: self.id as int,
            slug: self.slug@,
            name: self.name@,
            registry: self.registry@,
            description: self.description@,
            skill_md: self.skill_md@,
            github_url: self.github_url@,
            version: self.version.deep_view(),
            stars: self.stars as int,
            trusted: self.trusted,
            updated_at: self.updated_at as int,
        }
    }
}

impl Skill {
    /// An exact copy, field for field.
    pub fn duplicate(&self) -> (r: Skill)
        ensures
            r@ == self@,
    {
        Skill {
            id: self.id,
            slug: self.slug.clone(),
            name: self.name.clone(),
            registry: self.registry.clone(),
            description: self.description.clone(),
            skill_md: self.skill_md.clone(),
            github_url: self.github_url.clone(),
            version: match &self.version {
                Some(v) => Some(v.clone()),
                None => None,
            },
            stars: self.stars,
            trusted: self.trusted,
            updated_at: self.updated_at,
        }
    }
}

pub open spec fn skill_views(v: Seq<Skill>) -> Seq<SkillView> {
    v.map_values(|sk: Skill| sk@)
}

pub open spec fn slugs_of(s: Seq<SkillView>) -> Seq<Seq<char>> {
    s.map_values(|sk: SkillView| sk.slug)
}

pub open spec fn same_key(a: SkillView, registry: Seq<char>, slug: Seq<char>) -> bool {
    a.registry == registry && a.slug == slug
}

/// The predicate "this row's registry is `registry`", as a value, so that
/// contracts and loop invariants name one and the same function.
pub open spec fn registry_pred(registry: Seq<char>) -> spec_fn(SkillView) -> bool {
    |sk: SkillView| sk.registry == registry
}

/// Index of the first row with the given key, or -1.
pub open spec fn key_index(s: Seq<SkillView>, registry: Seq<char>, slug: Seq<char>) -> int
    decreases s.len(),
{
    if s.len() == 0 {
        -1
    } else if same_key(s[0], registry, slug) {
        0
    } else if key_index(s.skip(1), registry, slug) == -1 {
        -1
    } else {
        key_index(s.skip(1), registry, slug) + 1
    }
}

/// Index of the first row with the given slug, under any registry, or -1.
pub open spec fn slug_index(s: Seq<SkillView>, slug: Seq<char>) -> int
    decreases s.len(),
{
    if s.len() == 0 {
        -1
    } else if s[0].slug == slug {
        0
    } else if slug_index(s.skip(1), slug) == -1 {
        -1
    } else {
        slug_index(s.skip(1), slug) + 1
    }
}

pub open spec fn keys_unique(s: Seq<SkillView>) -> bool {
    forall|i: int, j: int|
        0 <= i < j < s.len() ==> !(#[trigger] s[i].registry == #[trigger] s[j].registry
            && s[i].slug == s[j].slug)
}

pub open spec fn ids_strictly_increasing(s: Seq<SkillView>) -> bool {
    forall|i: int, j: int| 0 <= i < j < s.len() ==> #[trigger] s[i].id < #[trigger] s[j].id
}

pub proof fn lemma_key_index(s: Seq<SkillView>, registry: Seq<char>, slug: Seq<char>)
    ensures
        -1 <= key_index(s, registry, slug) < s.len(),
        key_index(s, registry, slug) >= 0 ==> same_key(
            s[key_index(s, registry, slug)],
            registry,
            slug,
        ),
        forall|i: int|
            0 <= i < s.len() && (key_index(s, registry, slug) == -1 || i < key_index(
                s,
                registry,
                slug,
            )) ==> !same_key(#[trigger] s[i], registry, slug),
    decreases s.len(),
{
    if s.len() > 0 && !same_key(s[0], registry, slug) {
        lemma_key_index(s.skip(1), registry, slug);
        let k = key_index(s, registry, slug);
        assert forall|i: int| 0 <= i < s.len() && (k == -1 || i < k) implies !same_key(
            #[trigger] s[i],
            registry,
            slug,
        ) by {
            if i >= 1 {
                assert(s.skip(1)[i - 1] == s[i]);
            }
        }
        if k >= 0 {
            assert(s.skip(1)[k - 1] == s[k]);
        }
    }
}

pub proof fn lemma_slug_index(s: Seq<SkillView>, slug: Seq<char>)
    ensures
        -1 <= slug_index(s, slug) < s.len(),
        slug_index(s, slug) >= 0 ==> s[slug_index(s, slug)].slug == slug,
        forall|i: int|
            0 <= i < s.len() && (slug_index(s, slug) == -1 || i < slug_index(s, slug))
                ==> (#[trigger] s[i]).slug != slug,
    decreases s.len(),
{
    if s.len() > 0 && s[0].slug != slug {
        lemma_slug_index(s.skip(1), slug);
        let k = slug_index(s, slug);
        assert forall|i: int| 0 <= i < s.len() && (k == -1 || i < k) implies (
        #[trigger] s[i]).slug != slug by {
            if i >= 1 {
                assert(s.skip(1)[i - 1] == s[i]);
            }
        }
        if k >= 0 {
            assert(s.skip(1)[k - 1] == s[k]);
        }
    }
}

/// `key_index` looks at keys alone.
pub proof fn lemma_key_index_same_keys(
    s: Seq<SkillView>,
    t: Seq<SkillView>,
    registry: Seq<char>,
    slug: Seq<char>,
)
    requires
        s.len() == t.len(),
        forall|i: int|
            0 <= i < s.len() ==> (#[trigger] s[i]).registry == (#[trigger] t[i]).registry
                && s[i].slug == t[i].slug,
    ensures
        key_index(s, registry, slug) == key_index(t, registry, slug),
    decreases s.len(),
{
    if s.len() > 0 {
        assert forall|i: int|
            0 <= i < s.skip(1).len() implies (#[trigger] s.skip(1)[i]).registry == (
            #[trigger] t.skip(1)[i]).registry && s.skip(1)[i].slug == t.skip(1)[i].slug by {
            assert(s.skip(1)[i] == s[i + 1]);
            assert(t.skip(1)[i] == t[i + 1]);
        }
        lemma_key_index_same_keys(s.skip(1), t.skip(1), registry, slug);
        assert(s[0].registry == t[0].registry && s[0].slug == t[0].slug);
    }
}

pub proof fn lemma_key_index_push(
    s: Seq<SkillView>,
    x: SkillView,
    registry: Seq<char>,
    slug: Seq<char>,
)
    ensures
        key_index(s.push(x), registry, slug) == if key_index(s, registry, slug) >= 0 {
            key_index(s, registry, slug)
        } else if same_key(x, registry, slug) {
            s.len() as int
        } else {
            -1
        },
    decreases s.len(),
{
    if s.len() == 0 {
        assert(s.push(x)[0] == x);
        assert(s.push(x).skip(1) =~= Seq::<SkillView>::empty());
        assert(key_index(s, registry, slug) == -1);
        assert(key_index(Seq::<SkillView>::empty(), registry, slug) == -1);
        if same_key(x, registry, slug) {
            assert(key_index(s.push(x), registry, slug) == 0);
        } else {
            assert(key_index(s.push(x), registry, slug) == -1);
        }
    } else {
        lemma_key_index_push(s.skip(1), x, registry, slug);
        assert(s.push(x)[0] == s[0]);
        assert(s.push(x).skip(1) =~= s.skip(1).push(x));
        let kp = key_index(s.skip(1), registry, slug);
        if same_key(s[0], registry, slug) {
            assert(key_index(s.push(x), registry, slug) == 0);
        } else if kp >= 0 {
            assert(key_index(s, registry, slug) == kp + 1);
            assert(key_index(s.push(x), registry, slug) == kp + 1);
        } else if same_key(x, registry, slug) {
            assert(key_index(s.skip(1).push(x), registry, slug) == s.skip(1).len());
            assert(key_index(s.push(x), registry, slug) == s.len());
        } else {
            assert(key_index(s.push(x), registry, slug) == -1);
        }
    }
}

/// The store after an upsert: the row under the record's key is replaced,
/// keeping its id, or the record is appended under the fresh id.
pub open spec fn upsert_view(s: Seq<SkillView>, sk: SkillView, fresh: int) -> Seq<SkillView> {
    let i = key_index(s, sk.registry, sk.slug);
    if i >= 0 {
        s.update(i, SkillView { id: s[i].id, ..sk })
    } else {
        s.push(SkillView { id: fresh, ..sk })
    }
}

/// The id an upsert reports: the existing row's, or the fresh one.
pub open spec fn upsert_id(s: Seq<SkillView>, sk: SkillView, fresh: int) -> int {
    let i = key_index(s, sk.registry, sk.slug);
    if i >= 0 {
        s[i].id
    } else {
        fresh
    }
}

/// Per-registry sync bookkeeping: time of the last completed sync and an
/// optional opaque cache token.
pub struct SyncRow {
    pub registry: String,
    pub last_sync: i64,
    pub etag: Option<String>,
}

pub struct SyncRowView {
    pub registry: Seq<char>,
    pub last_sync: int,
    pub etag: Option<Seq<char>>,
}

impl View for SyncRow {
    type V = SyncRowView;

    open spec fn view(&self) -> SyncRowView {
        SyncRowView {
            registry: self.registry@,
            last_sync: self.last_sync as int,
            etag: self.etag.deep_view(),
        }
    }
}

pub open spec fn sync_index(s: Seq<SyncRowView>, registry: Seq<char>) -> int
    decreases s.len(),
{
    if s.len() == 0 {
        -1
    } else if s[0].registry == registry {
        0
    } else if sync_index(s.skip(1), registry) == -1 {
        -1
    } else {
        sync_index(s.skip(1), registry) + 1
    }
}

pub proof fn lemma_sync_index(s: Seq<SyncRowView>, registry: Seq<char>)
    ensures
        -1 <= sync_index(s, registry) < s.len(),
        sync_index(s, registry) >= 0 ==> s[sync_index(s, registry)].registry == registry,
        forall|i: int|
            0 <= i < s.len() && (sync_index(s, registry) == -1 || i < sync_index(s, registry))
                ==> (#[trigger] s[i]).registry != registry,
    decreases s.len(),
{
    if s.len() > 0 && s[0].registry != registry {
        lemma_sync_index(s.skip(1), registry);
        let k = sync_index(s, registry);
        assert forall|i: int| 0 <= i < s.len() && (k == -1 || i < k) implies (
        #[trigger] s[i]).registry != registry by {
            if i >= 1 {
                assert(s.skip(1)[i - 1] == s[i]);
            }
        }
        if k >= 0 {
            assert(s.skip(1)[k - 1] == s[k]);
        }
    }
}

pub open spec fn sync_registries_unique(s: Seq<SyncRowView>) -> bool {
    forall|i: int, j: int|
        0 <= i < j < s.len() ==> (#[trigger] s[i]).registry != (#[trigger] s[j]).registry
}

/// The one way a store mutation can fail: every internal id has been
/// handed out, so a new row cannot be assigned one.
#[derive(Debug, Clone, Copy, PartialEq, Eq, Structural)]
pub enum DbError {
    IdsExhausted,
}

/// The skill store.
pub struct Database {
    skills: Vec<Skill>,
    next_id: i64,
    sync: Vec<SyncRow>,
}

impl Database {
    /// All skill rows, in insertion order.
    pub closed spec fn skills_view(&self) -> Seq<SkillView> {
        skill_views(self.skills@)
    }

    /// All sync rows, in insertion order.
    pub closed spec fn sync_view(&self) -> Seq<SyncRowView> {
        self.sync@.map_values(|r: SyncRow| r@)
    }

    /// The id the next inserted row will get.
    pub closed spec fn fresh_id(&self) -> int {
        self.next_id as int
    }

    pub open spec fn inv(&self) -> bool {
        &&& keys_unique(self.skills_view())
        &&& ids_strictly_increasing(self.skills_view())
        &&& 1 <= self.fresh_id() <= i64::MAX
        &&& forall|i: int|
            0 <= i < self.skills_view().len() ==> 1 <= (#[trigger] self.skills_view()[i]).id
                < self.fresh_id()
        &&& sync_registries_unique(self.sync_view())
    }

    /// A fresh, empty store.
    pub fn open() -> (db: Database)
        ensures
            db.inv(),
            db.skills_view() == Seq::<SkillView>::empty(),
            db.sync_view() == Seq::<SyncRowView>::empty(),
            db.fresh_id() == 1,
    {
        let db = Database { skills: Vec::new(), next_id: 1, sync: Vec::new() };
        proof {
            assert(db.skills_view() =~= Seq::<SkillView>::empty());
            assert(db.sync_view() =~= Seq::<SyncRowView>::empty());
        }
        db
    }

    /// True exactly when no skill rows exist; used to trigger a first sync.
    pub fn needs_initial_sync(&self) -> (r: bool)
        ensures
            r == (self.skills_view().len() == 0),
    {
        self.skills.len() == 0
    }

    /// Position of the row under `(registry, slug)`, if any.
    fn find_key(&self, registry: &str, slug: &str) -> (r: Option<usize>)
        ensures
            match r {
                Some(i) => 0 <= i < self.skills_view().len() && key_index(
                    self.skills_view(),
                    registry@,
                    slug@,
                ) == i as int,
                None => key_index(self.skills_view(), registry@, slug@) == -1,
            },
    {
        let ghost v = self.skills_view();
        let mut i: usize = 0;
        while i < self.skills.len()
            invariant
                v == self.skills_view(),
                v.len() == self.skills@.len(),
                i <= self.skills@.len(),
                forall|k: int| 0 <= k < i ==> !same_key(#[trigger] v[k], registry@, slug@),
            decreases self.skills@.len() - i,
        {
            let row = &self.skills[i];
            if str_eq(row.registry.as_str(), registry) && str_eq(row.slug.as_str(), slug) {
                proof {
                    lemma_key_index(v, registry@, slug@);
                    assert(same_key(v[i as int], registry@, slug@));
                }
                return Some(i);
            }
            proof {
                assert(v[i as int] == self.skills@[i as int]@);
            }
            i += 1;
        }
        proof {
            lemma_key_index(v, registry@, slug@);
        }
        None
    }

    /// Insert the record if its `(registry, slug)` is absent; otherwise
    /// replace every mutable field of the existing row, keeping its id.
    /// Reports the row's id.
    pub fn upsert_skill(&mut self, skill: &Skill) -> (r: Result<i64, DbError>)
        requires
            old(self).inv(),
        ensures
            final(self).inv(),
            final(self).sync_view() == old(self).sync_view(),
            r is Ok <==> (key_index(old(self).skills_view(), skill@.registry, skill@.slug) >= 0
                || old(self).fresh_id() < i64::MAX),
            match r {
                Ok(id) => {
                    &&& final(self).skills_view() == upsert_view(
                        old(self).skills_view(),
                        skill@,
                        old(self).fresh_id(),
                    )
                    &&& id as int == upsert_id(
                        old(self).skills_view(),
                        skill@,
                        old(self).fresh_id(),
                    )
                    &&& final(self).fresh_id() == if key_index(
                        old(self).skills_view(),
                        skill@.registry,
                        skill@.slug,
                    ) >= 0 {
                        old(self).fresh_id()
                    } else {
                        old(self).fresh_id() + 1
                    }
                },
                Err(e) => {
                    &&& e == DbError::IdsExhausted
                    &&& key_index(old(self).skills_view(), skill@.registry, skill@.slug) == -1
                    &&& old(self).fresh_id() == i64::MAX
                    &&& final(self).skills_view() == old(self).skills_view()
                    &&& final(self).fresh_id() == old(self).fresh_id()
                },
            },
    {
        let ghost v = self.skills_view();
        proof {
            lemma_key_index(v, skill@.registry, skill@.slug);
        }
        match self.find_key(skill.registry.as_str(), skill.slug.as_str()) {
            Some(i) => {
                let id = self.skills[i].id;
                let mut updated = skill.duplicate();
                updated.id = id;
                proof {
                    assert(updated@ == SkillView { id: id as int, ..skill@ });
                }
                self.skills[i] = updated;
                proof {
                    assert(self.skills_view() =~= v.update(
                        i as int,
                        SkillView { id: id as int, ..skill@ },
                    ));
                }
                Ok(id)
            },
            None => {
                if self.next_id == i64::MAX {
                    return Err(DbError::IdsExhausted);
                }
                let id = self.next_id;
                let mut fresh = skill.duplicate();
                fresh.id = id;
                proof {
                    assert(fresh@ == SkillView { id: id as int, ..skill@ });
                }
                self.skills.push(fresh);
                self.next_id = id + 1;
                proof {
                    assert(self.skills_view() =~= v.push(SkillView { id: id as int, ..skill@ }));
                    lemma_key_index(v, skill@.registry, skill@.slug);
                }
                Ok(id)
            },
        }
    }

    /// Set `stars` for an existing `(registry, slug)` row, touching no
    /// other field; a missing key changes nothing.
    pub fn update_stars(&mut self, registry: &str, slug: &str, stars: i64)
        requires
            old(self).inv(),
        ensures
            final(self).inv(),
            final(self).sync_view() == old(self).sync_view(),
            final(self).fresh_id() == old(self).fresh_id(),
            ({
                let i = key_index(old(self).skills_view(), registry@, slug@);
                if i >= 0 {
                    final(self).skills_view() == old(self).skills_view().update(
                        i,
                        SkillView { stars: stars as int, ..old(self).skills_view()[i] },
                    )
                } else {
                    final(self).skills_view() == old(self).skills_view()
                }
            }),
    {
        let ghost v = self.skills_view();
        proof {
            lemma_key_index(v, registry@, slug@);
        }
        match self.find_key(registry, slug) {
            Some(i) => {
                let mut updated = self.skills[i].duplicate();
                updated.stars = stars;
                proof {
                    assert(updated@ == SkillView { stars: stars as int, ..v[i as int] });
                }
                self.skills[i] = updated;
                proof {
                    assert(self.skills_view() =~= v.update(
                        i as int,
                        SkillView { stars: stars as int, ..v[i as int] },
                    ));
                }
            },
            None => {},
        }
    }

    /// The row under exactly `(registry, slug)`, if present.
    pub fn get_skill(&self, registry: &str, slug: &str) -> (r: Option<Skill>)
        ensures
            match r {
                Some(sk) => key_index(self.skills_view(), registry@, slug@) >= 0 && sk@
                    == self.skills_view()[key_index(self.skills_view(), registry@, slug@)],
                None => key_index(self.skills_view(), registry@, slug@) == -1,
            },
    {
        match self.find_key(registry, slug) {
            Some(i) => Some(self.skills[i].duplicate()),
            None => None,
        }
    }

    /// Some row with the given slug, chosen deterministically: the one
    /// inserted first, which by the id discipline is the one with the
    /// lowest id.
    pub fn get_skill_by_slug(&self, slug: &str) -> (r: Option<Skill>)
        ensures
            match r {
                Some(sk) => slug_index(self.skills_view(), slug@) >= 0 && sk@
                    == self.skills_view()[slug_index(self.skills_view(), slug@)],
                None => slug_index(self.skills_view(), slug@) == -1,
            },
    {
        let ghost v = self.skills_view();
        let mut i: usize = 0;
        while i < self.skills.len()
            invariant
                v == self.skills_view(),
                v.len() == self.skills@.len(),
                i <= self.skills@.len(),
                forall|k: int| 0 <= k < i ==> (#[trigger] v[k]).slug != slug@,
            decreases self.skills@.len() - i,
        {
            let row = &self.skills[i];
            if str_eq(row.slug.as_str(), slug) {
                proof {
                    lemma_slug_index(v, slug@);
                    assert(v[i as int] == self.skills@[i as int]@);
                }
                return Some(row.duplicate());
            }
            proof {
                assert(v[i as int] == self.skills@[i as int]@);
            }
            i += 1;
        }
        proof {
            lemma_slug_index(v, slug@);
        }
        None
    }

    /// Every stored row, in insertion order.
    pub fn get_all_skills(&self) -> (r: Vec<Skill>)
        ensures
            skill_views(r@) == self.skills_view(),
    {
        let mut out: Vec<Skill> = Vec::new();
        let mut i: usize = 0;
        proof {
            assert(skill_views(out@) =~= self.skills_view().take(0));
        }
        while i < self.skills.len()
            invariant
                self.skills_view().len() == self.skills@.len(),
                i <= self.skills@.len(),
                skill_views(out@) == self.skills_view().take(i as int),
            decreases self.skills@.len() - i,
        {
            let ghost prev = skill_views(out@);
            out.push(self.skills[i].duplicate());
            proof {
                assert(skill_views(out@) =~= prev.push(self.skills@[i as int]@));
                assert(self.skills_view()[i as int] == self.skills@[i as int]@);
                assert(self.skills_view().take(i as int + 1) =~= self.skills_view().take(
                    i as int,
                ).push(self.skills_view()[i as int]));
            }
            i += 1;
        }
        proof {
            assert(self.skills_view().take(self.skills@.len() as int) =~= self.skills_view());
        }
        out
    }

    /// The rows whose registry equals `registry`, in insertion order.
    pub fn get_skills_by_registry(&self, registry: &str) -> (r: Vec<Skill>)
        ensures
            skill_views(r@) == self.skills_view().filter(registry_pred(registry@)),
    {
        let ghost pred = registry_pred(registry@);
        let mut out: Vec<Skill> = Vec::new();
        let mut i: usize = 0;
        proof {
            assert(self.skills_view().take(0) =~= Seq::<SkillView>::empty());
            assert(skill_views(out@) =~= Seq::<SkillView>::empty());
            reveal(Seq::filter);
            assert(Seq::<SkillView>::empty().filter(registry_pred(registry@))
                =~= Seq::<SkillView>::empty());
        }
        while i < self.skills.len()
            invariant
                self.skills_view().len() == self.skills@.len(),
                i <= self.skills@.len(),
                skill_views(out@) == self.skills_view().take(i as int).filter(
                    registry_pred(registry@),
                ),
            decreases self.skills@.len() - i,
        {
            let ghost pred = registry_pred(registry@);
            let ghost v = self.skills_view();
            let ghost prev = skill_views(out@);
            proof {
                assert(v.take(i as int + 1).drop_last() =~= v.take(i as int));
                assert(v.take(i as int + 1).last() == v[i as int]);
                assert(v[i as int] == self.skills@[i as int]@);
            }
            let row = &self.skills[i];
            if str_eq(row.registry.as_str(), registry) {
                out.push(row.duplicate());
                proof {
                    reveal(Seq::filter);
                    assert(skill_views(out@) =~= prev.push(v[i as int]));
                    assert(pred(v[i as int]));
                    assert(v.take(i as int + 1).filter(pred) == v.take(i as int).filter(
                        pred,
                    ).push(v[i as int]));
                }
            } else {
                proof {
                    reveal(Seq::filter);
                    assert(!pred(v[i as int]));
                    assert(v.take(i as int + 1).filter(pred) == v.take(i as int).filter(pred));
                }
            }
            i += 1;
        }
        proof {
            assert(self.skills_view().take(self.skills@.len() as int) =~= self.skills_view());
        }
        out
    }

    /// The slugs of the rows stored under the `clawdhub` registry.
    pub fn get_clawdhub_slugs(&self) -> (r: Vec<String>)
        ensures
            crate::text::views_of(r@) == slugs_of(
                self.skills_view().filter(registry_pred(clawdhub_name())),
            ),
    {
        let rows = self.get_skills_by_registry("clawdhub");
        proof {
            reveal_strlit("clawdhub");
            assert("clawdhub"@ =~= clawdhub_name());
        }
        let mut out: Vec<String> = Vec::new();
        let mut i: usize = 0;
        let ghost kept = self.skills_view().filter(registry_pred(clawdhub_name()));
        proof {
            assert(crate::text::views_of(out@) =~= slugs_of(kept).take(0));
        }
        while i < rows.len()
            invariant
                skill_views(rows@) == kept,
                i <= rows@.len(),
                kept.len() == rows@.len(),
                crate::text::views_of(out@) == slugs_of(kept).take(i as int),
            decreases rows@.len() - i,
        {
            let ghost prev = crate::text::views_of(out@);
            out.push(rows[i].slug.clone());
            proof {
                assert(crate::text::views_of(out@) =~= prev.push(rows@[i as int].slug@));
                assert(kept[i as int] == rows@[i as int]@);
                let m = slugs_of(kept);
                assert(m.take(i as int + 1) =~= m.take(i as int).push(m[i as int]));
            }
            i += 1;
        }
        proof {
            let m = slugs_of(kept);
            assert(m.take(rows@.len() as int) =~= m);
        }
        out
    }

    /// Record a completed sync for a registry, replacing any earlier
    /// record for it.
    pub fn set_last_sync(&mut self, registry: &str, timestamp: i64, etag: Option<&str>)
        requires
            old(self).inv(),
        ensures
            final(self).inv(),
            final(self).skills_view() == old(self).skills_view(),
            final(self).fresh_id() == old(self).fresh_id(),
            ({
                let row = SyncRowView {
                    registry: registry@,
                    last_sync: timestamp as int,
                    etag: match etag {
                        Some(e) => Some(e@),
                        None => None,
                    },
                };
                let i = sync_index(old(self).sync_view(), registry@);
                if i >= 0 {
                    final(self).sync_view() == old(self).sync_view().update(i, row)
                } else {
                    final(self).sync_view() == old(self).sync_view().push(row)
                }
            }),
    {
        let ghost v = self.sync_view();
        proof {
            lemma_sync_index(v, registry@);
        }
        let owned_etag: Option<String> = match etag {
            Some(e) => Some(e.to_owned()),
            None => None,
        };
        let row = SyncRow { registry: registry.to_owned(), last_sync: timestamp, etag: owned_etag };
        let mut i: usize = 0;
        while i < self.sync.len()
            invariant
                self == old(self),
                old(self).inv(),
                v == self.sync_view(),
                v.len() == self.sync@.len(),
                i <= self.sync@.len(),
                forall|k: int| 0 <= k < i ==> (#[trigger] v[k]).registry != registry@,
                row@ == (SyncRowView {
                    registry: registry@,
                    last_sync: timestamp as int,
                    etag: match etag {
                        Some(e) => Some(e@),
                        None => None,
                    },
                }),
            decreases self.sync@.len() - i,
        {
            let found = str_eq(self.sync[i].registry.as_str(), registry);
            proof {
                assert(v[i as int] == self.sync@[i as int]@);
            }
            if found {
                proof {
                    lemma_sync_index(v, registry@);
                    assert(sync_index(v, registry@) == i as int);
                }
                self.sync[i] = row;
                proof {
                    assert(self.sync_view() =~= v.update(i as int, row@));
                }
                return ;
            }
            i += 1;
        }
        proof {
            lemma_sync_index(v, registry@);
            assert(sync_index(v, registry@) == -1);
        }
        self.sync.push(row);
        proof {
            assert(self.sync_view() =~= v.push(
                SyncRowView {
                    registry: registry@,
                    last_sync: timestamp as int,
                    etag: match etag {
                        Some(e) => Some(e@),
                        None => None,
                    },
                },
            ));
        }
    }

    /// The last recorded sync for a registry, if any.
    pub fn get_last_sync(&self, registry: &str) -> (r: Option<(i64, Option<String>)>)
        ensures
            match r {
                Some(p) => sync_index(self.sync_view(), registry@) >= 0 && {
                    let row = self.sync_view()[sync_index(self.sync_view(), registry@)];
                    p.0 as int == row.last_sync && p.1.deep_view() == row.etag
                },
                None => sync_index(self.sync_view(), registry@) == -1,
            },
    {
        let ghost v = self.sync_view();
        let mut i: usize = 0;
        while i < self.sync.len()
            invariant
                v == self.sync_view(),
                v.len() == self.sync@.len(),
                i <= self.sync@.len(),
                forall|k: int| 0 <= k < i ==> (#[trigger] v[k]).registry != registry@,
            decreases self.sync@.len() - i,
        {
            let row = &self.sync[i];
            proof {
                assert(v[i as int] == self.sync@[i as int]@);
            }
            if str_eq(row.registry.as_str(), registry) {
                proof {
                    lemma_sync_index(v, registry@);
                }
                let etag: Option<String> = match &row.etag {
                    Some(e) => Some(e.clone()),
                    None => None,
                };
                return Some((row.last_sync, etag));
            }
            i += 1;
        }
        proof {
            lemma_sync_index(v, registry@);
        }
        None
    }

    /// Forget every sync record; every registry then counts as never
    /// synced.  Skill rows are untouched.
    pub fn clear_sync_state(&mut self)
        requires
            old(self).inv(),
        ensures
            final(self).inv(),
            final(self).skills_view() == old(self).skills_view(),
            final(self).fresh_id() == old(self).fresh_id(),
            final(self).sync_view() == Seq::<SyncRowView>::empty(),
    {
        self.sync.clear();
        proof {
            assert(self.sync_view() =~= Seq::<SyncRowView>::empty());
        }
    }
}

/// The registry name `clawdhub`, whose rows carry community star counts.
pub open spec fn clawdhub_name() -> Seq<char> {
    seq!['c', 'l', 'a', 'w', 'd', 'h', 'u', 'b']
}

/// Law: upserting the same record twice, with any fresh ids, leaves
/// exactly the state after the first upsert — one row under the key,
/// fields unchanged.
pub proof fn lemma_upsert_idempotent(s: Seq<SkillView>, sk: SkillView, f1: int, f2: int)
    ensures
        upsert_view(upsert_view(s, sk, f1), sk, f2) == upsert_view(s, sk, f1),
{
    let i = key_index(s, sk.registry, sk.slug);
    lemma_key_index(s, sk.registry, sk.slug);
    let s1 = upsert_view(s, sk, f1);
    if i >= 0 {
        lemma_key_index_same_keys(s1, s, sk.registry, sk.slug);
        assert(key_index(s1, sk.registry, sk.slug) == i);
        assert(s1[i].id == s[i].id);
        assert(s1.update(i, SkillView { id: s[i].id, ..sk }) =~= s1);
    } else {
        lemma_key_index_push(s, SkillView { id: f1, ..sk }, sk.registry, sk.slug);
        let j = s.len() as int;
        assert(key_index(s1, sk.registry, sk.slug) == j);
        assert(s1[j].id == f1);
        assert(s1.update(j, SkillView { id: f1, ..sk }) =~= s1);
    }
}

/// Law: upserting a changed record for an existing key keeps the row
/// count and the row's identity, and replaces every mutable field with
/// the new record's values.
pub proof fn lemma_upsert_last_write_wins(
    s: Seq<SkillView>,
    a: SkillView,
    b: SkillView,
    f1: int,
    f2: int,
)
    requires
        a.registry == b.registry,
        a.slug == b.slug,
    ensures
        ({
            let s1 = upsert_view(s, a, f1);
            let s2 = upsert_view(s1, b, f2);
            let id = upsert_id(s, a, f1);
            let j = key_index(s1, b.registry, b.slug);
            &&& s2.len() == s1.len()
            &&& upsert_id(s1, b, f2) == id
            &&& 0 <= j < s1.len()
            &&& s2 == s1.update(j, SkillView { id: id, ..b })
        }),
{
    let i = key_index(s, a.registry, a.slug);
    lemma_key_index(s, a.registry, a.slug);
    let s1 = upsert_view(s, a, f1);
    if i >= 0 {
        lemma_key_index_same_keys(s1, s, b.registry, b.slug);
        assert(key_index(s1, b.registry, b.slug) == i);
        assert(s1[i].id == s[i].id);
        let s2 = upsert_view(s1, b, f2);
        assert(s2 == s1.update(i, SkillView { id: s[i].id, ..b }));
        assert(0 <= i < s2.len());
    } else {
        lemma_key_index_push(s, SkillView { id: f1, ..a }, b.registry, b.slug);
        let j = s.len() as int;
        assert(key_index(s1, b.registry, b.slug) == j);
        assert(s1[j].id == f1);
        let s2 = upsert_view(s1, b, f2);
        assert(s2 == s1.update(j, SkillView { id: f1, ..b }));
        assert(0 <= j < s2.len());
    }
}

/// Law: an upsert leaves every row under a different key exactly where
/// it was; in particular the same slug under another registry is an
/// independent row.
pub proof fn lemma_upsert_preserves_other_rows(
    s: Seq<SkillView>,
    sk: SkillView,
    fresh: int,
    j: int,
)
    requires
        0 <= j < s.len(),
        !same_key(s[j], sk.registry, sk.slug),
    ensures
        upsert_view(s, sk, fresh).len() >= s.len(),
        upsert_view(s, sk, fresh)[j] == s[j],
{
    let i = key_index(s, sk.registry, sk.slug);
    lemma_key_index(s, sk.registry, sk.slug);
    if i >= 0 {
        assert(i != j);
    }
}

/// Law: when rows carry strictly increasing ids, the row a slug-only
/// lookup returns is the one with the lowest id among all rows bearing
/// that slug.
pub proof fn lemma_slug_lookup_lowest_id(s: Seq<SkillView>, slug: Seq<char>)
    requires
        ids_strictly_increasing(s),
    ensures
        slug_index(s, slug) >= 0 ==> forall|j: int|
            0 <= j < s.len() && (#[trigger] s[j]).slug == slug ==> s[slug_index(s, slug)].id
                <= s[j].id,
{
    lemma_slug_index(s, slug);
}

} // verus!
