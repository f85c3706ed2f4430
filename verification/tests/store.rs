use skill_search::db::Database;
use skill_search::skill::Skill;
use skill_search::sync::{api_base, normalize_skillssh_record, replace_slashes, sync_records};

fn sample(registry: &str, slug: &str, name: &str, stars: i64, trusted: bool) -> Skill {
    Skill {
        id: 0,
        slug: slug.to_string(),
        name: name.to_string(),
        registry: registry.to_string(),
        description: format!("{} description", name),
        skill_md: format!("# {}\nlong form docs", name),
        github_url: format!("https://github.com/example/{}", slug),
        version: Some("1.0.0".to_string()),
        stars,
        trusted,
        updated_at: 1000,
    }
}

#[test]
fn test_api_base_url() {
    assert_eq!(api_base(), "https://skills.sh");
}

#[test]
fn upsert_assigns_stable_ids() {
    let mut db = Database::new();
    let a = sample("anthropic", "pdf-tools", "PDF Tools", 120, true);
    let b = sample("openai", "csv-kit", "CSV Kit", 50, true);
    let id_a = db.upsert_skill(&a);
    let id_b = db.upsert_skill(&b);
    assert_ne!(id_a, id_b);
    assert_eq!(db.get_all_skills().len(), 2);
}

#[test]
fn upsert_is_idempotent() {
    let mut db = Database::new();
    let a = sample("anthropic", "pdf-tools", "PDF Tools", 120, true);
    let id1 = db.upsert_skill(&a);
    let id2 = db.upsert_skill(&a);
    assert_eq!(id1, id2);
    let rows = db.get_all_skills();
    assert_eq!(rows.len(), 1);
    assert_eq!(rows[0].name, "PDF Tools");
    assert_eq!(rows[0].stars, 120);
    assert_eq!(rows[0].id, id1);
}

#[test]
fn upserts_sharing_identity_collapse_to_latest() {
    let mut db = Database::new();
    let first = sample("anthropic", "pdf-tools", "PDF Tools", 120, true);
    let mut second = sample("anthropic", "pdf-tools", "PDF Toolkit", 200, false);
    second.description = "newer description".to_string();
    let id1 = db.upsert_skill(&first);
    let id2 = db.upsert_skill(&second);
    assert_eq!(id1, id2);
    let rows = db.get_all_skills();
    assert_eq!(rows.len(), 1);
    assert_eq!(rows[0].name, "PDF Toolkit");
    assert_eq!(rows[0].stars, 200);
    assert_eq!(rows[0].description, "newer description");
    assert!(!rows[0].trusted);
    assert_eq!(rows[0].id, id1);
}

#[test]
fn get_skill_finds_by_identity() {
    let mut db = Database::new();
    db.upsert_skill(&sample("anthropic", "pdf-tools", "PDF Tools", 120, true));
    db.upsert_skill(&sample("openai", "pdf-tools", "Other PDF", 10, true));
    let hit = db
        .get_skill(&"anthropic".to_string(), &"pdf-tools".to_string())
        .unwrap();
    assert_eq!(hit.name, "PDF Tools");
    assert!(db
        .get_skill(&"anthropic".to_string(), &"missing".to_string())
        .is_none());
    let by_slug = db.get_skill_by_slug(&"pdf-tools".to_string()).unwrap();
    assert_eq!(by_slug.registry, "anthropic");
    assert!(db.get_skill_by_slug(&"missing".to_string()).is_none());
}

#[test]
fn update_stars_changes_one_field() {
    let mut db = Database::new();
    db.upsert_skill(&sample("anthropic", "pdf-tools", "PDF Tools", 120, true));
    db.update_stars(&"anthropic".to_string(), &"pdf-tools".to_string(), 999);
    let hit = db
        .get_skill(&"anthropic".to_string(), &"pdf-tools".to_string())
        .unwrap();
    assert_eq!(hit.stars, 999);
    assert_eq!(hit.name, "PDF Tools");
    db.update_stars(&"anthropic".to_string(), &"missing".to_string(), 1);
    assert_eq!(db.get_all_skills().len(), 1);
}

#[test]
fn needs_initial_sync_only_when_empty() {
    let mut db = Database::new();
    assert!(db.needs_initial_sync());
    db.upsert_skill(&sample("anthropic", "pdf-tools", "PDF Tools", 120, true));
    assert!(!db.needs_initial_sync());
}

#[test]
fn sync_state_is_kept_per_registry_and_cleared_whole() {
    let mut db = Database::new();
    assert!(db.get_last_sync(&"skillssh".to_string()).is_none());
    db.set_last_sync(&"skillssh".to_string(), 42, Some("tok".to_string()));
    db.set_last_sync(&"clawdhub".to_string(), 7, None);
    let (t, e) = db.get_last_sync(&"skillssh".to_string()).unwrap();
    assert_eq!(t, 42);
    assert_eq!(e, Some("tok".to_string()));
    db.set_last_sync(&"skillssh".to_string(), 43, None);
    let (t2, e2) = db.get_last_sync(&"skillssh".to_string()).unwrap();
    assert_eq!(t2, 43);
    assert_eq!(e2, None);
    db.clear_sync_state();
    assert!(db.get_last_sync(&"skillssh".to_string()).is_none());
    assert!(db.get_last_sync(&"clawdhub".to_string()).is_none());
}

#[test]
fn registry_listings_filter_rows() {
    let mut db = Database::new();
    db.upsert_skill(&sample("clawdhub", "alpha", "Alpha", 1, false));
    db.upsert_skill(&sample("anthropic", "beta", "Beta", 2, true));
    db.upsert_skill(&sample("clawdhub", "gamma", "Gamma", 3, false));
    let hub = db.get_skills_by_registry(&"clawdhub".to_string());
    assert_eq!(hub.len(), 2);
    assert_eq!(hub[0].slug, "alpha");
    assert_eq!(hub[1].slug, "gamma");
    assert_eq!(db.get_clawdhub_slugs(), vec!["alpha".to_string(), "gamma".to_string()]);
}

#[test]
fn store_embedding_validates_dimension_and_range() {
    let mut db = Database::new();
    let id = db.upsert_skill(&sample("anthropic", "pdf-tools", "PDF Tools", 120, true));
    assert!(!db.store_embedding(id, &vec![1i32; 3]));
    assert!(!db.store_embedding(id, &vec![2_000_000i32; 384]));
    assert!(db.store_embedding(id, &vec![10i32; 384]));
    assert!(db.has_embedding(id));
    assert!(!db.has_embedding(id + 1));
    assert_eq!(db.get_skills_needing_embedding().len(), 0);
    db.upsert_skill(&sample("openai", "csv-kit", "CSV Kit", 50, true));
    let needing = db.get_skills_needing_embedding();
    assert_eq!(needing.len(), 1);
    assert_eq!(needing[0].slug, "csv-kit");
}

#[test]
fn normalize_with_source_builds_tree_url() {
    let r = normalize_skillssh_record(
        &"owner/pdf-tools".to_string(),
        &"PDF Tools".to_string(),
        120,
        &Some("acme/skills".to_string()),
        555,
    );
    assert_eq!(r.slug, "owner__pdf-tools");
    assert_eq!(r.registry, "skillssh");
    assert_eq!(
        r.github_url,
        "https://github.com/acme/skills/tree/main/skills/pdf-tools"
    );
    assert_eq!(r.description, "From acme/skills");
    assert_eq!(r.stars, 120);
    assert!(!r.trusted);
    assert_eq!(r.updated_at, 555);
    assert_eq!(r.version, None);
    assert_eq!(r.skill_md, "");
}

#[test]
fn normalize_without_source_points_at_catalog() {
    let r = normalize_skillssh_record(
        &"pdf-tools".to_string(),
        &"PDF Tools".to_string(),
        3,
        &None,
        555,
    );
    assert_eq!(r.slug, "pdf-tools");
    assert_eq!(r.github_url, "https://skills.sh/skills/pdf-tools");
    assert_eq!(r.description, "");
    let r2 = normalize_skillssh_record(
        &"x/y".to_string(),
        &"XY".to_string(),
        3,
        &Some(String::new()),
        555,
    );
    assert_eq!(r2.github_url, "https://skills.sh/skills/x/y");
}

#[test]
fn replace_slashes_rewrites_every_separator() {
    assert_eq!(replace_slashes("a/b/c"), "a__b__c");
    assert_eq!(replace_slashes("plain"), "plain");
    assert_eq!(replace_slashes(""), "");
}

#[test]
fn sync_records_upserts_batch_and_sets_state() {
    let mut db = Database::new();
    let batch = vec![
        sample("skillssh", "one", "One", 1, false),
        sample("skillssh", "two", "Two", 2, false),
        sample("skillssh", "one", "One Again", 5, false),
    ];
    let count = sync_records(&mut db, &batch, &"skillssh".to_string(), 99, None);
    assert_eq!(count, 3);
    assert_eq!(db.get_all_skills().len(), 2);
    let one = db
        .get_skill(&"skillssh".to_string(), &"one".to_string())
        .unwrap();
    assert_eq!(one.name, "One Again");
    assert_eq!(one.stars, 5);
    let (t, e) = db.get_last_sync(&"skillssh".to_string()).unwrap();
    assert_eq!(t, 99);
    assert_eq!(e, None);
}
