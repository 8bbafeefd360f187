use skill_search::db::{Database, Skill};

fn create_test_skill(slug: &str, registry: &str, trusted: bool) -> Skill {
    Skill {
        id: 0,
        slug: slug.to_string(),
        name: format!("{} skill", slug),
        registry: registry.to_string(),
        description: format!("Description for {}", slug),
        skill_md: "# Test\nSome content".to_string(),
        github_url: format!("https://github.com/test/{}", slug),
        version: Some("1.0.0".to_string()),
        stars: 0,
        trusted,
        updated_at: 1234567890,
    }
}

#[test]
fn test_database_open_creates_tables() {
    let db = Database::open();
    assert!(db.needs_initial_sync());
}

#[test]
fn test_upsert_and_get_skill() {
    let mut db = Database::open();

    let skill = create_test_skill("test-skill", "clawdhub", false);
    let id = db.upsert_skill(&skill).unwrap();
    assert!(id > 0);

    let retrieved = db.get_skill("clawdhub", "test-skill").unwrap();
    assert_eq!(retrieved.slug, "test-skill");
    assert_eq!(retrieved.name, "test-skill skill");
    assert_eq!(retrieved.registry, "clawdhub");
    assert!(!retrieved.trusted);
}

#[test]
fn test_upsert_updates_existing_skill() {
    let mut db = Database::open();

    let mut skill = create_test_skill("update-test", "anthropic", true);
    db.upsert_skill(&skill).unwrap();

    skill.description = "Updated description".to_string();
    skill.stars = 100;
    db.upsert_skill(&skill).unwrap();

    let retrieved = db.get_skill("anthropic", "update-test").unwrap();
    assert_eq!(retrieved.description, "Updated description");
    assert_eq!(retrieved.stars, 100);
}

#[test]
fn test_get_skill_by_slug() {
    let mut db = Database::open();

    let skill = create_test_skill("slug-test", "openai", true);
    db.upsert_skill(&skill).unwrap();

    let retrieved = db.get_skill_by_slug("slug-test").unwrap();
    assert_eq!(retrieved.slug, "slug-test");
    assert!(retrieved.trusted);
}

#[test]
fn test_get_skill_by_slug_not_found() {
    let db = Database::open();

    let result = db.get_skill_by_slug("nonexistent");
    assert!(result.is_none());
}

#[test]
fn test_get_all_skills() {
    let mut db = Database::open();

    db.upsert_skill(&create_test_skill("skill1", "clawdhub", false)).unwrap();
    db.upsert_skill(&create_test_skill("skill2", "anthropic", true)).unwrap();
    db.upsert_skill(&create_test_skill("skill3", "openai", true)).unwrap();

    let all_skills = db.get_all_skills();
    assert_eq!(all_skills.len(), 3);
}

#[test]
fn test_get_skills_by_registry() {
    let mut db = Database::open();

    db.upsert_skill(&create_test_skill("skill1", "clawdhub", false)).unwrap();
    db.upsert_skill(&create_test_skill("skill2", "clawdhub", false)).unwrap();
    db.upsert_skill(&create_test_skill("skill3", "anthropic", true)).unwrap();

    let clawdhub_skills = db.get_skills_by_registry("clawdhub");
    assert_eq!(clawdhub_skills.len(), 2);

    let anthropic_skills = db.get_skills_by_registry("anthropic");
    assert_eq!(anthropic_skills.len(), 1);
}

#[test]
fn test_update_stars() {
    let mut db = Database::open();

    let skill = create_test_skill("stars-test", "clawdhub", false);
    db.upsert_skill(&skill).unwrap();

    db.update_stars("clawdhub", "stars-test", 42);

    let retrieved = db.get_skill("clawdhub", "stars-test").unwrap();
    assert_eq!(retrieved.stars, 42);
}

#[test]
fn test_needs_initial_sync() {
    let mut db = Database::open();

    assert!(db.needs_initial_sync());

    db.upsert_skill(&create_test_skill("skill1", "clawdhub", false)).unwrap();

    assert!(!db.needs_initial_sync());
}

#[test]
fn test_sync_state() {
    let mut db = Database::open();

    assert!(db.get_last_sync("clawdhub").is_none());

    db.set_last_sync("clawdhub", 1234567890, Some("etag123"));

    let (timestamp, etag) = db.get_last_sync("clawdhub").unwrap();
    assert_eq!(timestamp, 1234567890);
    assert_eq!(etag, Some("etag123".to_string()));
}

#[test]
fn test_clear_sync_state() {
    let mut db = Database::open();

    db.set_last_sync("clawdhub", 1234567890, None);
    db.set_last_sync("anthropic", 1234567890, None);

    db.clear_sync_state();

    assert!(db.get_last_sync("clawdhub").is_none());
    assert!(db.get_last_sync("anthropic").is_none());
}

#[test]
fn test_get_clawdhub_slugs() {
    let mut db = Database::open();

    db.upsert_skill(&create_test_skill("skill1", "clawdhub", false)).unwrap();
    db.upsert_skill(&create_test_skill("skill2", "clawdhub", false)).unwrap();
    db.upsert_skill(&create_test_skill("skill3", "anthropic", true)).unwrap();

    let slugs = db.get_clawdhub_slugs();
    assert_eq!(slugs.len(), 2);
    assert!(slugs.contains(&"skill1".to_string()));
    assert!(slugs.contains(&"skill2".to_string()));
}

#[test]
fn test_upsert_identical_is_idempotent() {
    let mut db = Database::open();

    let skill = create_test_skill("twice", "clawdhub", false);
    let first_id = db.upsert_skill(&skill).unwrap();
    let second_id = db.upsert_skill(&skill).unwrap();

    assert_eq!(first_id, second_id);
    let all = db.get_all_skills();
    assert_eq!(all.len(), 1);
    assert_eq!(all[0].name, "twice skill");
    assert_eq!(all[0].id, first_id);
}

#[test]
fn test_same_slug_under_two_registries() {
    let mut db = Database::open();

    db.upsert_skill(&create_test_skill("shared", "clawdhub", false)).unwrap();
    db.upsert_skill(&create_test_skill("shared", "anthropic", true)).unwrap();

    assert_eq!(db.get_all_skills().len(), 2);

    // The slug-only lookup picks the earliest-inserted row: the lowest id.
    let picked = db.get_skill_by_slug("shared").unwrap();
    assert_eq!(picked.registry, "clawdhub");

    // Updating one row leaves the other registry's row untouched.
    let mut changed = create_test_skill("shared", "anthropic", true);
    changed.description = "changed".to_string();
    db.upsert_skill(&changed).unwrap();
    let other = db.get_skill("clawdhub", "shared").unwrap();
    assert_eq!(other.description, "Description for shared");
}

#[test]
fn test_set_last_sync_replaces_earlier_record() {
    let mut db = Database::open();
    db.set_last_sync("clawdhub", 100, Some("one"));
    db.set_last_sync("clawdhub", 200, None);

    let (timestamp, etag) = db.get_last_sync("clawdhub").unwrap();
    assert_eq!(timestamp, 200);
    assert!(etag.is_none());
}
