use skill_search::db::{Database, Skill};
use skill_search::index::SearchIndex;
use skill_search::quality::{QualityEntry, QualityScores};
use skill_search::registry::{
    merge_stars_page, next_mirror_step, pagination_continues, process_skill, registries,
    scan_skills_tree, sync_registry_skills, apply_star_updates, MirrorStep, Registry, StarCount,
    SubEntry, TreeEntry,
};
use skill_search::retrieve::{search_skills, top_skills};

fn make_store_skill(slug: &str, name: &str, description: &str, registry: &str, stars: i64, trusted: bool) -> Skill {
    Skill {
        id: 0,
        slug: slug.to_string(),
        name: name.to_string(),
        registry: registry.to_string(),
        description: description.to_string(),
        skill_md: format!("# {}\n\n{}", name, description),
        github_url: format!("https://github.com/test/{}", slug),
        version: None,
        stars,
        trusted,
        updated_at: 1234567890,
    }
}

fn curated(name: &str, registry: &str, score: i64) -> QualityEntry {
    QualityEntry {
        name: name.to_string(),
        registry: registry.to_string(),
        score,
        stars: 0,
        rationale: "curated".to_string(),
        url: format!("https://example.com/skills/{}", name),
    }
}

#[test]
fn test_end_to_end_quality_filtering() {
    let mut db = Database::open();
    db.upsert_skill(&make_store_skill("calendar", "Calendar", "Manage calendars", "clawdhub", 5, false)).unwrap();
    db.upsert_skill(&make_store_skill("pdf-reader", "PDF Reader", "Read PDFs", "anthropic", 50, true)).unwrap();

    let mut index = SearchIndex::open_or_create();
    index.rebuild(&db);

    let quality = QualityScores::load(vec![
        curated("calendar", "clawdhub", 60),
        curated("pdf-reader", "anthropic", 90),
    ]);

    // With the default minimum score of 80 the calendar skill is filtered out.
    let strict = search_skills(&db, &index, &quality, "calendar", 10, None, false, 80);
    assert_eq!(strict.len(), 0);

    // With the threshold lowered to 0 it comes back.
    let lax = search_skills(&db, &index, &quality, "calendar", 10, None, false, 0);
    assert_eq!(lax.len(), 1);
    assert_eq!(lax[0].skill.slug, "calendar");
    assert_eq!(lax[0].quality_score, 60);
}

#[test]
fn test_search_skills_trusted_filter() {
    let mut db = Database::open();
    db.upsert_skill(&make_store_skill("helper", "Helper Tool", "helps", "clawdhub", 1, false)).unwrap();
    db.upsert_skill(&make_store_skill("helper-pro", "Helper Pro", "helps more", "anthropic", 2, true)).unwrap();

    let mut index = SearchIndex::open_or_create();
    index.rebuild(&db);
    let quality = QualityScores::load(vec![
        curated("helper", "clawdhub", 95),
        curated("helper-pro", "anthropic", 95),
    ]);

    let trusted_only = search_skills(&db, &index, &quality, "helper", 10, None, true, 0);
    assert_eq!(trusted_only.len(), 1);
    assert!(trusted_only[0].skill.trusted);
    assert_eq!(trusted_only[0].skill.slug, "helper-pro");
}

#[test]
fn test_top_skills_orders_by_stars() {
    let mut db = Database::open();
    db.upsert_skill(&make_store_skill("low", "Low", "few stars", "clawdhub", 3, false)).unwrap();
    db.upsert_skill(&make_store_skill("high", "High", "many stars", "clawdhub", 900, false)).unwrap();
    db.upsert_skill(&make_store_skill("mid", "Mid", "some stars", "anthropic", 40, true)).unwrap();

    let quality = QualityScores::load(vec![
        curated("low", "clawdhub", 85),
        curated("high", "clawdhub", 85),
        curated("mid", "anthropic", 85),
    ]);

    let top = top_skills(&db, &quality, 2, false, 80);
    assert_eq!(top.len(), 2);
    assert_eq!(top[0].skill.slug, "high");
    assert_eq!(top[1].skill.slug, "mid");

    let trusted_top = top_skills(&db, &quality, 10, true, 0);
    assert_eq!(trusted_top.len(), 1);
    assert_eq!(trusted_top[0].skill.slug, "mid");
}

fn leaf(name: &str, manifest: Option<&str>) -> SubEntry {
    SubEntry {
        name: name.to_string(),
        is_dir: true,
        manifest: manifest.map(|m| m.to_string()),
    }
}

#[test]
fn test_scan_mixed_layouts() {
    let entries = vec![
        TreeEntry {
            name: "flat-skill".to_string(),
            is_dir: true,
            manifest: Some("---\nname: flat\n---\n".to_string()),
            entries: vec![],
        },
        TreeEntry {
            name: "README.md".to_string(),
            is_dir: false,
            manifest: None,
            entries: vec![],
        },
        TreeEntry {
            name: "group".to_string(),
            is_dir: true,
            manifest: None,
            entries: vec![
                leaf("nested-skill", Some("# Nested\n")),
                leaf("empty-dir", None),
                SubEntry {
                    name: "notes.txt".to_string(),
                    is_dir: false,
                    manifest: None,
                },
            ],
        },
    ];

    let found = scan_skills_tree(&entries);
    assert_eq!(found.len(), 2);
    assert_eq!(found[0].slug, "flat-skill");
    assert!(found[0].parent.is_none());
    assert_eq!(found[1].slug, "nested-skill");
    assert_eq!(found[1].parent, Some("group".to_string()));
}

#[test]
fn test_process_skill_builds_record() {
    let regs = registries();
    let clawdhub: &Registry = &regs[0];
    let entries = vec![TreeEntry {
        name: "group".to_string(),
        is_dir: true,
        manifest: None,
        entries: vec![leaf(
            "my-skill",
            Some("---\nname: My Skill\ndescription: Does things\nversion: '3.1'\n---\n"),
        )],
    }];
    let found = scan_skills_tree(&entries);
    assert_eq!(found.len(), 1);

    let skill = process_skill(clawdhub, &found[0], 777);
    assert_eq!(skill.slug, "my-skill");
    assert_eq!(skill.name, "My Skill");
    assert_eq!(skill.description, "Does things");
    assert_eq!(skill.version, Some("3.1".to_string()));
    assert_eq!(skill.registry, "clawdhub");
    assert!(!skill.trusted);
    assert_eq!(skill.updated_at, 777);
    assert_eq!(
        skill.github_url,
        "https://github.com/openclaw/skills/tree/main/skills/group/my-skill"
    );
}

#[test]
fn test_process_skill_unknown_registry_placeholder() {
    let reg = Registry {
        name: "elsewhere".to_string(),
        repo_url: "https://example.com/elsewhere.git".to_string(),
        skills_path: "skills".to_string(),
        trusted: false,
    };
    let entries = vec![TreeEntry {
        name: "thing".to_string(),
        is_dir: true,
        manifest: Some("# Thing\n".to_string()),
        entries: vec![],
    }];
    let found = scan_skills_tree(&entries);
    let skill = process_skill(&reg, &found[0], 1);
    assert_eq!(skill.github_url, "https://github.com/unknown/skills/thing");
}

#[test]
fn test_sync_registry_skills_ingests_tree() {
    let regs = registries();
    let anthropic: &Registry = &regs[1];
    let entries = vec![
        TreeEntry {
            name: "writer".to_string(),
            is_dir: true,
            manifest: Some("---\nname: Writer\ndescription: writes\n---\n".to_string()),
            entries: vec![],
        },
        TreeEntry {
            name: "reader".to_string(),
            is_dir: true,
            manifest: Some("# Reader\n".to_string()),
            entries: vec![],
        },
    ];

    let mut db = Database::open();
    let count = sync_registry_skills(&mut db, anthropic, &entries, 42);
    assert_eq!(count, 2);

    let writer = db.get_skill("anthropic", "writer").unwrap();
    assert_eq!(writer.name, "Writer");
    assert!(writer.trusted);
    assert_eq!(writer.updated_at, 42);
    let reader = db.get_skill("anthropic", "reader").unwrap();
    assert_eq!(reader.name, "Reader");

    // Syncing the same tree again replaces, never duplicates.
    let count2 = sync_registry_skills(&mut db, anthropic, &entries, 43);
    assert_eq!(count2, 2);
    assert_eq!(db.get_all_skills().len(), 2);
    assert_eq!(db.get_skill("anthropic", "writer").unwrap().updated_at, 43);
}

#[test]
fn test_next_mirror_step_decisions() {
    assert_eq!(next_mirror_step(false, false), MirrorStep::FullFetch);
    assert_eq!(next_mirror_step(true, false), MirrorStep::FastForward);
    assert_eq!(next_mirror_step(true, true), MirrorStep::FullFetch);
}

#[test]
fn test_pagination_continues_on_nonempty_cursor() {
    assert!(pagination_continues(&Some("abc".to_string())));
    assert!(!pagination_continues(&Some("".to_string())));
    assert!(!pagination_continues(&None));
}

#[test]
fn test_merge_stars_last_observation_wins() {
    let mut acc: Vec<StarCount> = Vec::new();
    merge_stars_page(
        &mut acc,
        &vec![
            StarCount { slug: "a".to_string(), stars: 1 },
            StarCount { slug: "b".to_string(), stars: 2 },
        ],
    );
    merge_stars_page(
        &mut acc,
        &vec![StarCount { slug: "a".to_string(), stars: 9 }],
    );
    assert_eq!(acc.len(), 2);
    assert_eq!(acc[0].slug, "a");
    assert_eq!(acc[0].stars, 9);
    assert_eq!(acc[1].stars, 2);
}

#[test]
fn test_apply_star_updates_targets_one_registry() {
    let mut db = Database::open();
    db.upsert_skill(&make_store_skill("shared", "Shared", "d", "clawdhub", 0, false)).unwrap();
    db.upsert_skill(&make_store_skill("shared", "Shared", "d", "anthropic", 0, true)).unwrap();

    let updates = vec![
        StarCount { slug: "shared".to_string(), stars: 7 },
        StarCount { slug: "unknown".to_string(), stars: 3 },
    ];
    apply_star_updates(&mut db, "clawdhub", &updates);

    assert_eq!(db.get_skill("clawdhub", "shared").unwrap().stars, 7);
    assert_eq!(db.get_skill("anthropic", "shared").unwrap().stars, 0);
    assert!(db.get_skill("clawdhub", "unknown").is_none());
}
