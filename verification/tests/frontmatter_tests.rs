use skill_search::frontmatter::parse_skill_frontmatter;
use skill_search::registry::registries;

#[test]
fn test_parse_frontmatter_complete() {
    let content = "---\nname: test-skill\ndescription: A test skill for testing\nversion: 1.0.0\n---\n\n# Test Skill\n\nSome content here.\n";
    let (name, description, version) = parse_skill_frontmatter(content);
    assert_eq!(name, "test-skill");
    assert_eq!(description, "A test skill for testing");
    assert_eq!(version, Some("1.0.0".to_string()));
}

#[test]
fn test_parse_frontmatter_quoted_values() {
    let content = "---\nname: \"quoted-skill\"\ndescription: 'Single quoted description'\nversion: \"2.0\"\n---\n";
    let (name, description, version) = parse_skill_frontmatter(content);
    assert_eq!(name, "quoted-skill");
    assert_eq!(description, "Single quoted description");
    assert_eq!(version, Some("2.0".to_string()));
}

#[test]
fn test_parse_frontmatter_no_version() {
    let content = "---\nname: simple-skill\ndescription: Just a simple skill\n---\n";
    let (name, description, version) = parse_skill_frontmatter(content);
    assert_eq!(name, "simple-skill");
    assert_eq!(description, "Just a simple skill");
    assert!(version.is_none());
}

#[test]
fn test_parse_frontmatter_fallback_to_heading() {
    let content = "# My Cool Skill\n\nThis skill does cool things.\n";
    let (name, description, version) = parse_skill_frontmatter(content);
    assert_eq!(name, "My Cool Skill");
    assert_eq!(description, "");
    assert!(version.is_none());
}

#[test]
fn test_parse_frontmatter_empty_content() {
    let content = "";
    let (name, description, version) = parse_skill_frontmatter(content);
    assert_eq!(name, "");
    assert_eq!(description, "");
    assert!(version.is_none());
}

#[test]
fn test_parse_frontmatter_no_frontmatter_with_heading() {
    let content = "Some text before\n# The Heading\nMore content";
    let (name, description, version) = parse_skill_frontmatter(content);
    assert_eq!(name, "The Heading");
    assert_eq!(description, "");
    assert!(version.is_none());
}

#[test]
fn test_registries_configuration() {
    let regs = registries();
    assert_eq!(regs.len(), 4);

    let clawdhub = &regs[0];
    assert_eq!(clawdhub.name, "clawdhub");
    assert!(!clawdhub.trusted);

    let anthropic = &regs[1];
    assert_eq!(anthropic.name, "anthropic");
    assert!(anthropic.trusted);

    let openai = &regs[2];
    assert_eq!(openai.name, "openai");
    assert!(openai.trusted);

    let openai_exp = &regs[3];
    assert_eq!(openai_exp.name, "openai-experimental");
    assert!(!openai_exp.trusted);
}

#[test]
fn test_parse_frontmatter_unterminated_block() {
    let content = "---\nname: dangling\n\n# Rescue Heading\n";
    let (name, description, version) = parse_skill_frontmatter(content);
    assert_eq!(name, "Rescue Heading");
    assert_eq!(description, "");
    assert!(version.is_none());
}

#[test]
fn test_parse_frontmatter_last_duplicate_key_wins() {
    let content = "---\nname: first\nname: second\n---\n";
    let (name, description, version) = parse_skill_frontmatter(content);
    assert_eq!(name, "second");
    assert_eq!(description, "");
    assert!(version.is_none());
}

#[test]
fn test_parse_frontmatter_strips_one_matching_quote_layer() {
    // An unmatched quote stays.
    let (name, _, _) = parse_skill_frontmatter("---\nname:\"a\n---\n");
    assert_eq!(name, "\"a");

    // Only one layer of a repeated pair is stripped.
    let (name, _, _) = parse_skill_frontmatter("---\nname: \"\"a\"\"\n---\n");
    assert_eq!(name, "\"a\"");

    // A double-quoted pair around single quotes leaves the single quotes.
    let (name, _, _) = parse_skill_frontmatter("---\nname: \"'a'\"\n---\n");
    assert_eq!(name, "'a'");

    // Mixed quote characters are not a matching pair.
    let (name, _, _) = parse_skill_frontmatter("---\nname: \"a'\n---\n");
    assert_eq!(name, "\"a'");
}
