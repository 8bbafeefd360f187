//! Registry synchronization, short of the outside world: the registry
//! table, the two-layout directory scan as a pure function over a
//! synthetic tree, manifest-to-record assembly, the mirror-step
//! decision, the popularity-page bookkeeping, and the ingest fold that
//! upserts scanned skills into the store.
//!
//! Fetching mirrors, reading directories and calling the paginated API
//! happen outside; they hand this module plain values.

use vstd::prelude::*;
use vstd::string::*;
use crate::db::{key_index, upsert_view, Database, Skill, SkillView};
use crate::frontmatter::{parse_frontmatter_spec, parse_skill_frontmatter};
use crate::text::str_eq;

verus! {

/// One configured registry: name, fetch location, in-tree skills path,
/// and its fixed trust classification.
#[derive(Debug, Clone)]
pub struct Registry {
    pub name: String,
    pub repo_url: String,
    pub skills_path: String,
    pub trusted: bool,
}

pub struct RegistryView {
    pub name: Seq<char>,
    pub repo_url: Seq<char>,
    pub skills_path: Seq<char>,
    pub trusted: bool,
}

impl View for Registry {
    type V = RegistryView;

    open spec fn view(&self) -> RegistryView {
        RegistryView {
            name: self.name@,
            repo_url: self.repo_url@,
            skills_path: self.skills_path@,
            trusted: self.trusted,
        }
    }
}

/// The configured registries.  Trust is fixed here, per registry, and
/// never computed from content.
pub fn registries() -> (r: Vec<Registry>)
    ensures
        r@.len() == 4,
        r@[0]@.name == "clawdhub"@ && !r@[0]@.trusted,
        r@[0]@.repo_url == "https://github.com/openclaw/skills.git"@ && r@[0]@.skills_path
            == "skills"@,
        r@[1]@.name == "anthropic"@ && r@[1]@.trusted,
        r@[1]@.repo_url == "https://github.com/anthropics/skills.git"@ && r@[1]@.skills_path
            == "skills"@,
        r@[2]@.name == "openai"@ && r@[2]@.trusted,
        r@[2]@.repo_url == "https://github.com/openai/skills.git"@ && r@[2]@.skills_path
            == "skills/.curated"@,
        r@[3]@.name == "openai-experimental"@ && !r@[3]@.trusted,
        r@[3]@.repo_url == "https://github.com/openai/skills.git"@ && r@[3]@.skills_path
            == "skills/.experimental"@,
{
    let mut r: Vec<Registry> = Vec::new();
    r.push(
        Registry {
            name: String::from_str("clawdhub"),
            repo_url: String::from_str("https://github.com/openclaw/skills.git"),
            skills_path: String::from_str("skills"),
            trusted: false,
        },
    );
    r.push(
        Registry {
            name: String::from_str("anthropic"),
            repo_url: String::from_str("https://github.com/anthropics/skills.git"),
            skills_path: String::from_str("skills"),
            trusted: true,
        },
    );
    r.push(
        Registry {
            name: String::from_str("openai"),
            repo_url: String::from_str("https://github.com/openai/skills.git"),
            skills_path: String::from_str("skills/.curated"),
            trusted: true,
        },
    );
    r.push(
        Registry {
            name: String::from_str("openai-experimental"),
            repo_url: String::from_str("https://github.com/openai/skills.git"),
            skills_path: String::from_str("skills/.experimental"),
            trusted: false,
        },
    );
    r
}

/// How a mirror is brought up to date: a fast-forward-only update when
/// one is present, a fresh full fetch when none is — or when the
/// previous fast-forward failed for any reason, which discards the
/// mirror rather than reconciling histories.
#[derive(Debug, Clone, Copy, PartialEq, Eq, Structural)]
pub enum MirrorStep {
    FastForward,
    FullFetch,
}

pub fn next_mirror_step(mirror_present: bool, prior_update_failed: bool) -> (s: MirrorStep)
    ensures
        s == (if !mirror_present || prior_update_failed {
            MirrorStep::FullFetch
        } else {
            MirrorStep::FastForward
        }),
{
    if !mirror_present || prior_update_failed {
        MirrorStep::FullFetch
    } else {
        MirrorStep::FastForward
    }
}

/// One entry of a skill directory's sub-listing.
#[derive(Debug, Clone)]
pub struct SubEntry {
    pub name: String,
    pub is_dir: bool,
    pub manifest: Option<String>,
}

pub struct SubEntryView {
    pub name: Seq<char>,
    pub is_dir: bool,
    pub manifest: Option<Seq<char>>,
}

impl View for SubEntry {
    type V = SubEntryView;

    open spec fn view(&self) -> SubEntryView {
        SubEntryView {
            name: self.name@,
            is_dir: self.is_dir,
            manifest: self.manifest.deep_view(),
        }
    }
}

/// One entry of a registry's skills directory: its name, whether it is
/// a directory, its manifest text when it directly holds one, and its
/// own listing for the grouped layout.
#[derive(Debug, Clone)]
pub struct TreeEntry {
    pub name: String,
    pub is_dir: bool,
    pub manifest: Option<String>,
    pub entries: Vec<SubEntry>,
}

pub struct TreeEntryView {
    pub name: Seq<char>,
    pub is_dir: bool,
    pub manifest: Option<Seq<char>>,
    pub entries: Seq<SubEntryView>,
}

impl View for TreeEntry {
    type V = TreeEntryView;

    open spec fn view(&self) -> TreeEntryView {
        TreeEntryView {
            name: self.name@,
            is_dir: self.is_dir,
            manifest: self.manifest.deep_view(),
            entries: self.entries@.map_values(|e: SubEntry| e@),
        }
    }
}

pub open spec fn tree_views(v: Seq<TreeEntry>) -> Seq<TreeEntryView> {
    v.map_values(|e: TreeEntry| e@)
}

/// One discovered skill directory: its slug — the directory's own name
/// — its parent directory under the grouped layout, and its manifest.
#[derive(Debug, Clone)]
pub struct SkillSource {
    pub slug: String,
    pub parent: Option<String>,
    pub manifest: String,
}

pub struct SkillSourceView {
    pub slug: Seq<char>,
    pub parent: Option<Seq<char>>,
    pub manifest: Seq<char>,
}

impl View for SkillSource {
    type V = SkillSourceView;

    open spec fn view(&self) -> SkillSourceView {
        SkillSourceView {
            slug: self.slug@,
            parent: self.parent.deep_view(),
            manifest: self.manifest@,
        }
    }
}

pub open spec fn source_views(v: Seq<SkillSource>) -> Seq<SkillSourceView> {
    v.map_values(|e: SkillSource| e@)
}

pub open spec fn scan_sub(parent: Seq<char>, subs: Seq<SubEntryView>) -> Seq<SkillSourceView>
    decreases subs.len(),
{
    if subs.len() == 0 {
        Seq::empty()
    } else {
        (if subs[0].is_dir && subs[0].manifest is Some {
            seq![
                SkillSourceView {
                    slug: subs[0].name,
                    parent: Some(parent),
                    manifest: subs[0].manifest->0,
                },
            ]
        } else {
            Seq::empty()
        }) + scan_sub(parent, subs.skip(1))
    }
}

/// The two-layout scan: a directory holding a manifest is itself a
/// skill; one without a manifest is a group whose sub-directories with
/// manifests are skills.  Layout is decided per directory.
pub open spec fn scan_spec(entries: Seq<TreeEntryView>) -> Seq<SkillSourceView>
    decreases entries.len(),
{
    if entries.len() == 0 {
        Seq::empty()
    } else {
        (if !entries[0].is_dir {
            Seq::empty()
        } else if entries[0].manifest is Some {
            seq![
                SkillSourceView {
                    slug: entries[0].name,
                    parent: None,
                    manifest: entries[0].manifest->0,
                },
            ]
        } else {
            scan_sub(entries[0].name, entries[0].entries)
        }) + scan_spec(entries.skip(1))
    }
}

/// Discover skill directories in a listing of a registry's skills
/// directory, in listing order.
pub fn scan_skills_tree(entries: &Vec<TreeEntry>) -> (r: Vec<SkillSource>)
    ensures
        source_views(r@) == scan_spec(tree_views(entries@)),
{
    let ghost tv = tree_views(entries@);
    let mut out: Vec<SkillSource> = Vec::new();
    let mut i: usize = 0;
    proof {
        assert(tv.skip(0) =~= tv);
        assert(source_views(out@) + scan_spec(tv) =~= scan_spec(tv));
    }
    while i < entries.len()
        invariant
            tv == tree_views(entries@),
            tv.len() == entries@.len(),
            i <= entries@.len(),
            scan_spec(tv) == source_views(out@) + scan_spec(tv.skip(i as int)),
        decreases entries@.len() - i,
    {
        let e = &entries[i];
        proof {
            assert(tv[i as int] == entries@[i as int]@);
            assert(tv.skip(i as int)[0] == tv[i as int]);
            assert(tv.skip(i as int).skip(1) =~= tv.skip(i as int + 1));
        }
        let ghost prev = source_views(out@);
        let ghost rest = scan_spec(tv.skip(i as int + 1));
        if e.is_dir {
            match &e.manifest {
                Some(m) => {
                    let src = SkillSource {
                        slug: e.name.clone(),
                        parent: None,
                        manifest: m.clone(),
                    };
                    out.push(src);
                    proof {
                        let one = SkillSourceView {
                            slug: tv[i as int].name,
                            parent: None,
                            manifest: tv[i as int].manifest->0,
                        };
                        assert(source_views(out@) =~= prev + seq![one]);
                        assert((prev + seq![one]) + rest =~= prev + (seq![one] + rest));
                    }
                },
                None => {
                    let ghost sv = tv[i as int].entries;
                    let ghost pname = tv[i as int].name;
                    let mut j: usize = 0;
                    proof {
                        assert(sv.skip(0) =~= sv);
                    }
                    while j < entries[i].entries.len()
                        invariant
                            tv == tree_views(entries@),
                            tv.len() == entries@.len(),
                            i < entries@.len(),
                            tv[i as int] == entries@[i as int]@,
                            sv == tv[i as int].entries,
                            pname == tv[i as int].name,
                            sv.len() == entries@[i as int].entries@.len(),
                            j <= entries@[i as int].entries@.len(),
                            rest == scan_spec(tv.skip(i as int + 1)),
                            scan_spec(tv) == source_views(out@) + scan_sub(
                                pname,
                                sv.skip(j as int),
                            ) + rest,
                        decreases entries@[i as int].entries@.len() - j,
                    {
                        let s = &entries[i].entries[j];
                        proof {
                            assert(sv[j as int] == entries@[i as int].entries@[j as int]@);
                            assert(sv.skip(j as int)[0] == sv[j as int]);
                            assert(sv.skip(j as int).skip(1) =~= sv.skip(j as int + 1));
                        }
                        let ghost p2 = source_views(out@);
                        if s.is_dir {
                            match &s.manifest {
                                Some(m) => {
                                    let src = SkillSource {
                                        slug: s.name.clone(),
                                        parent: Some(entries[i].name.clone()),
                                        manifest: m.clone(),
                                    };
                                    out.push(src);
                                    proof {
                                        let one = SkillSourceView {
                                            slug: sv[j as int].name,
                                            parent: Some(pname),
                                            manifest: sv[j as int].manifest->0,
                                        };
                                        assert(source_views(out@) =~= p2 + seq![one]);
                                        assert((p2 + seq![one]) + scan_sub(
                                            pname,
                                            sv.skip(j as int + 1),
                                        ) + rest =~= p2 + (seq![one] + scan_sub(
                                            pname,
                                            sv.skip(j as int + 1),
                                        )) + rest);
                                    }
                                },
                                None => {
                                    proof {
                                        assert(scan_sub(pname, sv.skip(j as int)) =~= Seq::<
                                            SkillSourceView,
                                        >::empty() + scan_sub(pname, sv.skip(j as int + 1)));
                                        assert(Seq::<SkillSourceView>::empty() + scan_sub(
                                            pname,
                                            sv.skip(j as int + 1),
                                        ) =~= scan_sub(pname, sv.skip(j as int + 1)));
                                    }
                                },
                            }
                        } else {
                            proof {
                                assert(scan_sub(pname, sv.skip(j as int)) =~= Seq::<
                                    SkillSourceView,
                                >::empty() + scan_sub(pname, sv.skip(j as int + 1)));
                                assert(Seq::<SkillSourceView>::empty() + scan_sub(
                                    pname,
                                    sv.skip(j as int + 1),
                                ) =~= scan_sub(pname, sv.skip(j as int + 1)));
                            }
                        }
                        j += 1;
                    }
                    proof {
                        assert(sv.skip(entries@[i as int].entries@.len() as int) =~= Seq::<
                            SubEntryView,
                        >::empty());
                        assert(scan_sub(pname, Seq::<SubEntryView>::empty()) =~= Seq::<
                            SkillSourceView,
                        >::empty());
                        assert(source_views(out@) + Seq::<SkillSourceView>::empty() + rest
                            =~= source_views(out@) + rest);
                    }
                },
            }
        } else {
            proof {
                assert(prev + Seq::<SkillSourceView>::empty() + rest =~= prev + rest);
            }
        }
        i += 1;
    }
    proof {
        assert(tv.skip(entries@.len() as int) =~= Seq::<TreeEntryView>::empty());
        assert(source_views(out@) + Seq::<SkillSourceView>::empty() =~= source_views(out@));
    }
    out
}

/// A skill directory's path relative to the mirror root.
pub open spec fn rel_path_of(
    skills_path: Seq<char>,
    parent: Option<Seq<char>>,
    slug: Seq<char>,
) -> Seq<char> {
    match parent {
        Some(p) => skills_path + seq!['/'] + p + seq!['/'] + slug,
        None => skills_path + seq!['/'] + slug,
    }
}

/// The browse url a record carries, synthesized from a per-registry
/// template; unknown registry names fall back to a placeholder.
pub open spec fn github_url_of(reg_name: Seq<char>, rel_path: Seq<char>) -> Seq<char> {
    if reg_name == "clawdhub"@ {
        "https://github.com/openclaw/skills/tree/main/"@ + rel_path
    } else if reg_name == "anthropic"@ {
        "https://github.com/anthropics/skills/tree/main/"@ + rel_path
    } else if reg_name == "openai"@ || reg_name == "openai-experimental"@ {
        "https://github.com/openai/skills/tree/main/"@ + rel_path
    } else {
        "https://github.com/unknown/"@ + rel_path
    }
}

/// The record a scanned skill directory becomes, before the store
/// assigns it an id.
pub open spec fn skill_of(reg: RegistryView, src: SkillSourceView, now: int) -> SkillView {
    let parsed = parse_frontmatter_spec(src.manifest);
    SkillView {
        id: 0,
        slug: src.slug,
        name: parsed.0,
        registry: reg.name,
        description: parsed.1,
        skill_md: src.manifest,
        github_url: github_url_of(reg.name, rel_path_of(reg.skills_path, src.parent, src.slug)),
        version: parsed.2,
        stars: 0,
        trusted: reg.trusted,
        updated_at: now,
    }
}

/// Assemble the record for one scanned skill directory: parse its
/// manifest, derive the slug and url, inherit the registry's trust.
pub fn process_skill(reg: &Registry, src: &SkillSource, now: i64) -> (sk: Skill)
    ensures
        sk@ == skill_of(reg@, src@, now as int),
{
    let parsed = parse_skill_frontmatter(src.manifest.as_str());
    let rel_path = match &src.parent {
        Some(p) => reg.skills_path.clone().concat("/").concat(p.as_str()).concat("/").concat(
            src.slug.as_str(),
        ),
        None => reg.skills_path.clone().concat("/").concat(src.slug.as_str()),
    };
    proof {
        reveal_strlit("/");
        assert("/"@ =~= seq!['/']);
        assert(rel_path@ == rel_path_of(reg@.skills_path, src@.parent, src@.slug));
    }
    let url = if str_eq(reg.name.as_str(), "clawdhub") {
        String::from_str("https://github.com/openclaw/skills/tree/main/").concat(
            rel_path.as_str(),
        )
    } else if str_eq(reg.name.as_str(), "anthropic") {
        String::from_str("https://github.com/anthropics/skills/tree/main/").concat(
            rel_path.as_str(),
        )
    } else if str_eq(reg.name.as_str(), "openai") || str_eq(
        reg.name.as_str(),
        "openai-experimental",
    ) {
        String::from_str("https://github.com/openai/skills/tree/main/").concat(rel_path.as_str())
    } else {
        String::from_str("https://github.com/unknown/").concat(rel_path.as_str())
    };
    Skill {
        id: 0,
        slug: src.slug.clone(),
        name: parsed.0,
        registry: reg.name.clone(),
        description: parsed.1,
        skill_md: src.manifest.clone(),
        github_url: url,
        version: parsed.2,
        stars: 0,
        trusted: reg.trusted,
        updated_at: now,
    }
}

/// The store and fresh id after upserting each scanned skill in order;
/// a record that cannot be inserted — every id spent — is skipped, as
/// one failed skill must not stop the others.
pub open spec fn ingest_fold(
    store: Seq<SkillView>,
    fresh: int,
    reg: RegistryView,
    srcs: Seq<SkillSourceView>,
    now: int,
) -> (Seq<SkillView>, int)
    decreases srcs.len(),
{
    if srcs.len() == 0 {
        (store, fresh)
    } else {
        let sk = skill_of(reg, srcs[0], now);
        let i = key_index(store, sk.registry, sk.slug);
        if i >= 0 {
            ingest_fold(upsert_view(store, sk, fresh), fresh, reg, srcs.skip(1), now)
        } else if fresh < i64::MAX {
            ingest_fold(upsert_view(store, sk, fresh), fresh + 1, reg, srcs.skip(1), now)
        } else {
            ingest_fold(store, fresh, reg, srcs.skip(1), now)
        }
    }
}

/// Scan a registry's tree and upsert every discovered skill into the
/// store, in listing order; reports how many skill directories were
/// found.
pub fn sync_registry_skills(
    db: &mut Database,
    reg: &Registry,
    entries: &Vec<TreeEntry>,
    now: i64,
) -> (count: usize)
    requires
        old(db).inv(),
    ensures
        final(db).inv(),
        final(db).sync_view() == old(db).sync_view(),
        ({
            let folded = ingest_fold(
                old(db).skills_view(),
                old(db).fresh_id(),
                reg@,
                scan_spec(tree_views(entries@)),
                now as int,
            );
            final(db).skills_view() == folded.0 && final(db).fresh_id() == folded.1
        }),
        count == scan_spec(tree_views(entries@)).len(),
{
    let srcs = scan_skills_tree(entries);
    let ghost sv = source_views(srcs@);
    let mut i: usize = 0;
    proof {
        assert(sv.skip(0) =~= sv);
    }
    while i < srcs.len()
        invariant
            sv == source_views(srcs@),
            sv.len() == srcs@.len(),
            i <= srcs@.len(),
            db.inv(),
            db.sync_view() == old(db).sync_view(),
            ingest_fold(old(db).skills_view(), old(db).fresh_id(), reg@, sv, now as int)
                == ingest_fold(db.skills_view(), db.fresh_id(), reg@, sv.skip(i as int), now as int),
        decreases srcs@.len() - i,
    {
        let src = &srcs[i];
        proof {
            assert(sv[i as int] == srcs@[i as int]@);
            assert(sv.skip(i as int)[0] == sv[i as int]);
            assert(sv.skip(i as int).skip(1) =~= sv.skip(i as int + 1));
            crate::db::lemma_key_index(
                db.skills_view(),
                skill_of(reg@, sv[i as int], now as int).registry,
                skill_of(reg@, sv[i as int], now as int).slug,
            );
        }
        let sk = process_skill(reg, src, now);
        match db.upsert_skill(&sk) {
            Ok(_) => {},
            Err(_) => {},
        }
        i += 1;
    }
    proof {
        assert(sv.skip(srcs@.len() as int) =~= Seq::<SkillSourceView>::empty());
    }
    srcs.len()
}

/// One observed community star count.
#[derive(Debug, Clone)]
pub struct StarCount {
    pub slug: String,
    pub stars: i64,
}

pub struct StarCountView {
    pub slug: Seq<char>,
    pub stars: int,
}

impl View for StarCount {
    type V = StarCountView;

    open spec fn view(&self) -> StarCountView {
        StarCountView { slug: self.slug@, stars: self.stars as int }
    }
}

pub open spec fn star_views(v: Seq<StarCount>) -> Seq<StarCountView> {
    v.map_values(|e: StarCount| e@)
}

/// Pagination goes on exactly while the server reports a non-empty
/// cursor; null and the empty string both end it.
pub fn pagination_continues(next_cursor: &Option<String>) -> (r: bool)
    ensures
        r == (match next_cursor.deep_view() {
            Some(c) => c.len() > 0,
            None => false,
        }),
{
    match next_cursor {
        Some(c) => !c.as_str().is_empty(),
        None => false,
    }
}

/// Index of the first count for `slug`, or -1.
pub open spec fn star_index(s: Seq<StarCountView>, slug: Seq<char>) -> int
    decreases s.len(),
{
    if s.len() == 0 {
        -1
    } else if s[0].slug == slug {
        0
    } else if star_index(s.skip(1), slug) == -1 {
        -1
    } else {
        star_index(s.skip(1), slug) + 1
    }
}

pub proof fn lemma_star_index(s: Seq<StarCountView>, slug: Seq<char>)
    ensures
        -1 <= star_index(s, slug) < s.len(),
        star_index(s, slug) >= 0 ==> s[star_index(s, slug)].slug == slug,
        forall|i: int|
            0 <= i < s.len() && (star_index(s, slug) == -1 || i < star_index(s, slug)) ==> (
            #[trigger] s[i]).slug != slug,
    decreases s.len(),
{
    if s.len() > 0 && s[0].slug != slug {
        lemma_star_index(s.skip(1), slug);
        let k = star_index(s, slug);
        assert forall|i: int| 0 <= i < s.len() && (k == -1 || i < k) implies (
        #[trigger] s[i]).slug != slug by {
            if i >= 1 {
                assert(s.skip(1)[i - 1] == s[i]);
            }
        }
        if k >= 0 {
            assert(s.skip(1)[k - 1] == s[k]);
        }
    }
}

/// Accumulating one observed count: the later observation of a slug
/// wins.
pub open spec fn put_star(s: Seq<StarCountView>, one: StarCountView) -> Seq<StarCountView> {
    let i = star_index(s, one.slug);
    if i >= 0 {
        s.update(i, one)
    } else {
        s.push(one)
    }
}

pub open spec fn merge_fold(s: Seq<StarCountView>, items: Seq<StarCountView>) -> Seq<
    StarCountView,
>
    decreases items.len(),
{
    if items.len() == 0 {
        s
    } else {
        merge_fold(put_star(s, items[0]), items.skip(1))
    }
}

/// Position of the first accumulated count for `slug`, if any.
fn find_star(acc: &Vec<StarCount>, slug: &str) -> (r: Option<usize>)
    ensures
        match r {
            Some(j) => 0 <= j < star_views(acc@).len() && star_index(star_views(acc@), slug@)
                == j as int,
            None => star_index(star_views(acc@), slug@) == -1,
        },
{
    let ghost av = star_views(acc@);
    let mut j: usize = 0;
    while j < acc.len()
        invariant
            av == star_views(acc@),
            av.len() == acc@.len(),
            j <= acc@.len(),
            forall|k: int| 0 <= k < j ==> (#[trigger] av[k]).slug != slug@,
        decreases acc@.len() - j,
    {
        proof {
            assert(av[j as int] == acc@[j as int]@);
        }
        if str_eq(acc[j].slug.as_str(), slug) {
            proof {
                lemma_star_index(av, slug@);
                assert(star_index(av, slug@) == j as int);
            }
            return Some(j);
        }
        j += 1;
    }
    proof {
        lemma_star_index(av, slug@);
    }
    None
}

/// Fold one page of the paginated listing into the accumulated
/// `slug → stars` map; within and across pages, the last observation
/// of a slug wins.
pub fn merge_stars_page(acc: &mut Vec<StarCount>, items: &Vec<StarCount>)
    ensures
        star_views(final(acc)@) == merge_fold(star_views(old(acc)@), star_views(items@)),
{
    let ghost iv = star_views(items@);
    let mut i: usize = 0;
    proof {
        assert(iv.skip(0) =~= iv);
    }
    while i < items.len()
        invariant
            iv == star_views(items@),
            iv.len() == items@.len(),
            i <= items@.len(),
            merge_fold(star_views(old(acc)@), iv) == merge_fold(
                star_views(acc@),
                iv.skip(i as int),
            ),
        decreases items@.len() - i,
    {
        let item = &items[i];
        let ghost av = star_views(acc@);
        proof {
            assert(iv[i as int] == items@[i as int]@);
            assert(iv.skip(i as int)[0] == iv[i as int]);
            assert(iv.skip(i as int).skip(1) =~= iv.skip(i as int + 1));
        }
        match find_star(acc, item.slug.as_str()) {
            Some(j) => {
                acc[j] = StarCount { slug: item.slug.clone(), stars: item.stars };
                proof {
                    assert(star_views(acc@) =~= av.update(j as int, iv[i as int]));
                }
            },
            None => {
                acc.push(StarCount { slug: item.slug.clone(), stars: item.stars });
                proof {
                    assert(star_views(acc@) =~= av.push(iv[i as int]));
                }
            },
        }
        i += 1;
    }
    proof {
        assert(iv.skip(items@.len() as int) =~= Seq::<StarCountView>::empty());
    }
}

/// The store after setting each accumulated count on its `(registry,
/// slug)` row, in order; counts for unknown slugs change nothing.
pub open spec fn apply_stars_fold(
    store: Seq<SkillView>,
    registry: Seq<char>,
    updates: Seq<StarCountView>,
) -> Seq<SkillView>
    decreases updates.len(),
{
    if updates.len() == 0 {
        store
    } else {
        let u = updates[0];
        let i = key_index(store, registry, u.slug);
        let next = if i >= 0 {
            store.update(i, SkillView { stars: u.stars, ..store[i] })
        } else {
            store
        };
        apply_stars_fold(next, registry, updates.skip(1))
    }
}

/// Bulk-apply accumulated star counts to one registry's rows, each
/// count touching only its row's `stars`.
pub fn apply_star_updates(db: &mut Database, registry: &str, updates: &Vec<StarCount>)
    requires
        old(db).inv(),
    ensures
        final(db).inv(),
        final(db).sync_view() == old(db).sync_view(),
        final(db).fresh_id() == old(db).fresh_id(),
        final(db).skills_view() == apply_stars_fold(
            old(db).skills_view(),
            registry@,
            star_views(updates@),
        ),
{
    let ghost uv = star_views(updates@);
    let mut i: usize = 0;
    proof {
        assert(uv.skip(0) =~= uv);
    }
    while i < updates.len()
        invariant
            uv == star_views(updates@),
            uv.len() == updates@.len(),
            i <= updates@.len(),
            db.inv(),
            db.sync_view() == old(db).sync_view(),
            db.fresh_id() == old(db).fresh_id(),
            apply_stars_fold(old(db).skills_view(), registry@, uv) == apply_stars_fold(
                db.skills_view(),
                registry@,
                uv.skip(i as int),
            ),
        decreases updates@.len() - i,
    {
        let u = &updates[i];
        proof {
            assert(uv[i as int] == updates@[i as int]@);
            assert(uv.skip(i as int)[0] == uv[i as int]);
            assert(uv.skip(i as int).skip(1) =~= uv.skip(i as int + 1));
        }
        db.update_stars(registry, u.slug.as_str(), u.stars);
        i += 1;
    }
    proof {
        assert(uv.skip(updates@.len() as int) =~= Seq::<StarCountView>::empty());
    }
}

} // verus!
