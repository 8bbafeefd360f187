use skill_search::quality::{extract_slug_from_url, normalize_slug, QualityEntry, QualityScores};

fn quality_entry(name: &str, registry: &str, score: i64, url: &str) -> QualityEntry {
    QualityEntry {
        name: name.to_string(),
        registry: registry.to_string(),
        score,
        stars: 0,
        rationale: "curated".to_string(),
        url: url.to_string(),
    }
}

#[test]
fn test_normalize_slug() {
    assert_eq!(normalize_slug("My-Skill"), "my-skill");
    assert_eq!(normalize_slug("SKILL_NAME"), "skill_name");
}

#[test]
fn test_normalize_strips_other_characters() {
    assert_eq!(normalize_slug("a!b@c"), "abc");
    assert_eq!(normalize_slug("Spaced Name"), "spacedname");
}

#[test]
fn test_extract_slug_from_url_segments() {
    assert_eq!(extract_slug_from_url("https://example.com/skills/My-Skill"), "My-Skill");
    assert_eq!(extract_slug_from_url("https://example.com/skills/My-Skill/"), "My-Skill");
    assert_eq!(extract_slug_from_url(""), "");
}

#[test]
fn test_load_quality_scores() {
    let entries = vec![
        quality_entry("alpha", "clawdhub", 50, "https://example.com/skills/alpha"),
        quality_entry("beta", "anthropic", 90, "https://example.com/skills/beta"),
    ];
    let qs = QualityScores::load(entries);
    assert!(qs.all_entries().len() > 0);
}

#[test]
fn test_lookup_by_normalized_slug() {
    let entries = vec![quality_entry(
        "My-Skill",
        "clawdhub",
        77,
        "https://example.com/skills/My-Skill",
    )];
    let qs = QualityScores::load(entries);
    assert_eq!(qs.get_score("clawdhub", "my-skill"), Some(77));
    assert_eq!(qs.get_score("clawdhub", "MY-SKILL"), Some(77));
    assert_eq!(qs.get_score("anthropic", "my-skill"), None);
    assert_eq!(qs.get_score("clawdhub", "other"), None);
}

#[test]
fn test_lookup_by_url_slug_key() {
    let entries = vec![quality_entry(
        "A Friendly Title",
        "clawdhub",
        64,
        "https://example.com/skills/real-slug",
    )];
    let qs = QualityScores::load(entries);
    assert_eq!(qs.get_score("clawdhub", "real-slug"), Some(64));
    assert_eq!(qs.get_score("clawdhub", "afriendlytitle"), Some(64));
}

#[test]
fn test_get_entry_returns_fields() {
    let entries = vec![quality_entry(
        "gamma",
        "openai",
        88,
        "https://example.com/skills/gamma",
    )];
    let qs = QualityScores::load(entries);
    let e = qs.get_entry("openai", "gamma").unwrap();
    assert_eq!(e.score, 88);
    assert_eq!(e.registry, "openai");
}
