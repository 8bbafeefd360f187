use skill_search::db::{Database, Skill};
use skill_search::index::{SearchIndex, SearchResult};

fn make_index_skill(slug: &str, name: &str, description: &str, registry: &str) -> Skill {
    Skill {
        id: 0,
        slug: slug.to_string(),
        name: name.to_string(),
        registry: registry.to_string(),
        description: description.to_string(),
        skill_md: format!("# {}\n\n{}", name, description),
        github_url: format!("https://github.com/test/{}", slug),
        version: Some("1.0.0".to_string()),
        stars: 0,
        trusted: registry == "anthropic",
        updated_at: 1234567890,
    }
}

#[test]
fn test_search_index_create() {
    let index = SearchIndex::open_or_create();
    let results = index.search("anything", 10, None);
    assert!(results.is_empty());
}

#[test]
fn test_search_index_rebuild_and_search() {
    let mut db = Database::open();
    db.upsert_skill(&make_index_skill("calendar", "Calendar Manager", "Manage your calendar events", "clawdhub")).unwrap();
    db.upsert_skill(&make_index_skill("pdf-reader", "PDF Reader", "Read and extract PDF content", "anthropic")).unwrap();
    db.upsert_skill(&make_index_skill("browser", "Browser Automation", "Automate browser tasks", "openai")).unwrap();

    let mut index = SearchIndex::open_or_create();
    index.rebuild(&db);

    let results = index.search("calendar", 10, None);
    assert!(!results.is_empty());
    assert_eq!(results[0].slug, "calendar");
}

#[test]
fn test_search_with_registry_filter() {
    let mut db = Database::open();
    db.upsert_skill(&make_index_skill("skill1", "Test Skill One", "A test skill", "clawdhub")).unwrap();
    db.upsert_skill(&make_index_skill("skill2", "Test Skill Two", "Another test skill", "anthropic")).unwrap();

    let mut index = SearchIndex::open_or_create();
    index.rebuild(&db);

    let results = index.search("test skill", 10, Some("anthropic"));
    assert_eq!(results.len(), 1);
    assert_eq!(results[0].registry, "anthropic");
}

#[test]
fn test_search_no_results() {
    let mut db = Database::open();
    db.upsert_skill(&make_index_skill("calendar", "Calendar", "Calendar app", "clawdhub")).unwrap();

    let mut index = SearchIndex::open_or_create();
    index.rebuild(&db);

    let results = index.search("nonexistent xyz abc", 10, None);
    assert!(results.is_empty());
}

#[test]
fn test_search_result_unique_key() {
    let result = SearchResult {
        slug: "test-skill".to_string(),
        name: "Test Skill".to_string(),
        description: "A test".to_string(),
        registry: "clawdhub".to_string(),
        score: 1,
    };
    assert_eq!(result.unique_key(), "clawdhub:test-skill");
}

#[test]
fn test_search_respects_limit() {
    let mut db = Database::open();
    for i in 0..10 {
        db.upsert_skill(&make_index_skill(
            &format!("skill{}", i),
            &format!("Test Skill {}", i),
            "A test skill for testing",
            "clawdhub",
        )).unwrap();
    }

    let mut index = SearchIndex::open_or_create();
    index.rebuild(&db);

    let results = index.search("test skill", 3, None);
    assert_eq!(results.len(), 3);
}

#[test]
fn test_search_content_includes_skill_md() {
    let mut db = Database::open();
    let mut skill = make_index_skill("unique", "Generic Name", "Generic description", "clawdhub");
    skill.skill_md = "# Unique Skill\n\nThis skill handles XYZABC123 tasks.".to_string();
    db.upsert_skill(&skill).unwrap();

    let mut index = SearchIndex::open_or_create();
    index.rebuild(&db);

    let results = index.search("XYZABC123", 10, None);
    assert!(!results.is_empty());
    assert_eq!(results[0].slug, "unique");
}

#[test]
fn test_search_ranks_more_matching_terms_higher() {
    let mut db = Database::open();
    db.upsert_skill(&make_index_skill("one-term", "Calendar", "Plain tool", "clawdhub")).unwrap();
    db.upsert_skill(&make_index_skill("two-terms", "Calendar Widget", "A widget", "clawdhub")).unwrap();

    let mut index = SearchIndex::open_or_create();
    index.rebuild(&db);

    let results = index.search("calendar widget", 10, None);
    assert_eq!(results.len(), 2);
    assert_eq!(results[0].slug, "two-terms");
    assert_eq!(results[1].slug, "one-term");
    assert!(results[0].score > results[1].score);
}

#[test]
fn test_search_tie_breaks_by_document_order() {
    let mut db = Database::open();
    db.upsert_skill(&make_index_skill("first", "Notebook", "a notebook", "clawdhub")).unwrap();
    db.upsert_skill(&make_index_skill("second", "Notebook", "a notebook", "anthropic")).unwrap();

    let mut index = SearchIndex::open_or_create();
    index.rebuild(&db);

    let results = index.search("notebook", 10, None);
    assert_eq!(results.len(), 2);
    assert_eq!(results[0].score, results[1].score);
    assert_eq!(results[0].slug, "first");
    assert_eq!(results[1].slug, "second");
}
