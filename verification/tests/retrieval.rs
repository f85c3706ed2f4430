use skill_search::db::Database;
use skill_search::index::{document_content, embedding_text, SearchResult as IndexHit};
use skill_search::search::{retain_trusted, search, text_fallback, top_skills};
use skill_search::skill::Skill;
use skill_search::text::str_contains_ci;

fn sample(registry: &str, slug: &str, name: &str, stars: i64, trusted: bool) -> Skill {
    Skill {
        id: 0,
        slug: slug.to_string(),
        name: name.to_string(),
        registry: registry.to_string(),
        description: format!("{} description", name),
        skill_md: String::new(),
        github_url: format!("https://github.com/example/{}", slug),
        version: None,
        stars,
        trusted,
        updated_at: 0,
    }
}

fn hit(registry: &str, slug: &str, name: &str, score: i64) -> IndexHit {
    IndexHit {
        slug: slug.to_string(),
        name: name.to_string(),
        description: String::new(),
        registry: registry.to_string(),
        score,
    }
}

fn flat(value: i32) -> Vec<i32> {
    vec![value; 384]
}

#[test]
fn contains_ignores_ascii_case() {
    assert!(str_contains_ci("PDF Tools", "pdf"));
    assert!(str_contains_ci("pdf tools", "PDF"));
    assert!(str_contains_ci("anything", ""));
    assert!(!str_contains_ci("csv kit", "pdf"));
    assert!(!str_contains_ci("ab", "abc"));
}

#[test]
fn fuzzy_search_finds_scenario_record() {
    let mut db = Database::new();
    db.upsert_skill(&sample("anthropic", "pdf-tools", "PDF Tools", 120, true));
    db.upsert_skill(&sample("openai", "csv-kit", "CSV Kit", 50, true));
    let hits = db.fuzzy_search("pdf", 5);
    assert_eq!(hits.len(), 1);
    assert_eq!(hits[0].slug, "pdf-tools");
    assert_eq!(db.fuzzy_search("pdf", 0).len(), 0);
}

#[test]
fn fuzzy_search_ranks_by_stars() {
    let mut db = Database::new();
    db.upsert_skill(&sample("a", "kit-low", "Kit Low", 10, false));
    db.upsert_skill(&sample("a", "kit-high", "Kit High", 300, false));
    db.upsert_skill(&sample("a", "kit-mid", "Kit Mid", 30, false));
    let hits = db.fuzzy_search("kit", 10);
    assert_eq!(hits.len(), 3);
    assert_eq!(hits[0].slug, "kit-high");
    assert_eq!(hits[1].slug, "kit-mid");
    assert_eq!(hits[2].slug, "kit-low");
    let top2 = db.fuzzy_search("kit", 2);
    assert_eq!(top2.len(), 2);
    assert_eq!(top2[0].slug, "kit-high");
}

#[test]
fn vector_search_ranks_by_distance() {
    let mut db = Database::new();
    let id_near = db.upsert_skill(&sample("a", "near", "Near", 1, false));
    let id_far = db.upsert_skill(&sample("a", "far", "Far", 1, false));
    assert!(db.store_embedding(id_near, &flat(10)));
    assert!(db.store_embedding(id_far, &flat(20)));
    let query = flat(10);
    let out = db.vector_search(&query, 10, None);
    assert_eq!(out.len(), 2);
    assert_eq!(out[0].0, id_near);
    assert_eq!(out[0].1, 0);
    assert_eq!(out[1].0, id_far);
    assert_eq!(out[1].1, 384 * 100);
    let only_one = db.vector_search(&query, 1, None);
    assert_eq!(only_one.len(), 1);
    assert_eq!(only_one[0].0, id_near);
}

#[test]
fn vector_search_honours_registry_filter() {
    let mut db = Database::new();
    let id_a = db.upsert_skill(&sample("anthropic", "one", "One", 1, false));
    let id_b = db.upsert_skill(&sample("openai", "two", "Two", 1, false));
    assert!(db.store_embedding(id_a, &flat(10)));
    assert!(db.store_embedding(id_b, &flat(10)));
    let query = flat(10);
    let reg = "openai".to_string();
    let out = db.vector_search(&query, 10, Some(&reg));
    assert_eq!(out.len(), 1);
    assert_eq!(out[0].0, id_b);
}

#[test]
fn search_prefers_vector_results() {
    let mut db = Database::new();
    let id = db.upsert_skill(&sample("anthropic", "pdf-tools", "PDF Tools", 120, true));
    assert!(db.store_embedding(id, &flat(10)));
    let query = flat(11);
    let hits = vec![hit("anthropic", "decoy", "Decoy", 900)];
    let out = search(&db, &query, &hits, 5, None);
    assert_eq!(out.len(), 1);
    assert_eq!(out[0].slug, "pdf-tools");
    assert_eq!(out[0].score, 1000 - 384);
    assert_eq!(out[0].github_url, "https://github.com/example/pdf-tools");
}

#[test]
fn search_falls_back_to_text_hits_when_vectors_are_empty() {
    let mut db = Database::new();
    db.upsert_skill(&sample("anthropic", "pdf-tools", "PDF Tools", 120, true));
    db.upsert_skill(&sample("openai", "csv-kit", "CSV Kit", 50, true));
    let query = flat(10);
    let hits = vec![
        hit("anthropic", "pdf-tools", "PDF Tools", 950),
        hit("openai", "csv-kit", "CSV Kit", 800),
        hit("openai", "vanished", "Gone", 700),
    ];
    let out = search(&db, &query, &hits, 5, None);
    let direct = text_fallback(&db, &hits, 5, None);
    assert_eq!(out.len(), 2);
    assert_eq!(direct.len(), 2);
    assert_eq!(out[0].slug, direct[0].slug);
    assert_eq!(out[1].slug, direct[1].slug);
    assert_eq!(out[0].slug, "pdf-tools");
    assert_eq!(out[0].score, 1000);
    assert_eq!(out[1].slug, "csv-kit");
    assert_eq!(out[1].score, 900);
}

#[test]
fn search_registry_filter_is_sound() {
    let mut db = Database::new();
    db.upsert_skill(&sample("anthropic", "pdf-tools", "PDF Tools", 120, true));
    db.upsert_skill(&sample("openai", "csv-kit", "CSV Kit", 50, true));
    let query = flat(10);
    let hits = vec![
        hit("anthropic", "pdf-tools", "PDF Tools", 950),
        hit("openai", "csv-kit", "CSV Kit", 800),
    ];
    let reg = "anthropic".to_string();
    let out = search(&db, &query, &hits, 5, Some(&reg));
    assert_eq!(out.len(), 1);
    for r in &out {
        assert_eq!(r.registry, "anthropic");
    }
}

#[test]
fn search_with_zero_limit_is_empty_not_an_error() {
    let mut db = Database::new();
    let id = db.upsert_skill(&sample("anthropic", "pdf-tools", "PDF Tools", 120, true));
    assert!(db.store_embedding(id, &flat(10)));
    let query = flat(10);
    let hits = vec![hit("anthropic", "pdf-tools", "PDF Tools", 950)];
    let out = search(&db, &query, &hits, 0, None);
    assert_eq!(out.len(), 0);
}

#[test]
fn top_skills_orders_by_stars_and_respects_trust() {
    let mut db = Database::new();
    db.upsert_skill(&sample("anthropic", "pdf-tools", "PDF Tools", 120, true));
    db.upsert_skill(&sample("clawdhub", "csv-kit", "CSV Kit", 50, false));
    let best = top_skills(&db, 1, false);
    assert_eq!(best.len(), 1);
    assert_eq!(best[0].slug, "pdf-tools");
    assert_eq!(best[0].stars, 120);
    let trusted = top_skills(&db, 10, true);
    assert_eq!(trusted.len(), 1);
    assert_eq!(trusted[0].slug, "pdf-tools");
    let all = top_skills(&db, 10, false);
    assert_eq!(all.len(), 2);
    assert_eq!(all[1].slug, "csv-kit");
}

#[test]
fn document_and_embedding_text_join_fields() {
    let mut s = sample("anthropic", "pdf-tools", "PDF Tools", 120, true);
    s.description = "reads PDFs".to_string();
    s.skill_md = "# PDF".to_string();
    assert_eq!(document_content(&s), "PDF Tools reads PDFs # PDF");
    assert_eq!(embedding_text(&s), "PDF Tools\nreads PDFs\n# PDF");
    let long = "x".repeat(2500);
    s.skill_md = long;
    let t = embedding_text(&s);
    assert!(t.ends_with(&"x".repeat(1000)));
    assert_eq!(t.chars().count(), "PDF Tools\nreads PDFs\n".chars().count() + 1000);
}

#[test]
fn retain_trusted_keeps_only_trusted_records() {
    let mut db = Database::new();
    db.upsert_skill(&sample("anthropic", "pdf-tools", "PDF Tools", 120, true));
    db.upsert_skill(&sample("clawdhub", "csv-kit", "CSV Kit", 50, false));
    let hits = vec![
        hit("anthropic", "pdf-tools", "PDF Tools", 950),
        hit("clawdhub", "csv-kit", "CSV Kit", 800),
    ];
    let results = text_fallback(&db, &hits, 10, None);
    assert_eq!(results.len(), 2);
    let trusted = retain_trusted(&db, &results);
    assert_eq!(trusted.len(), 1);
    assert_eq!(trusted[0].slug, "pdf-tools");
}

#[test]
fn fallback_rank_scores_step_down_by_tenths() {
    let mut db = Database::new();
    let mut hits = Vec::new();
    for i in 0..12 {
        let slug = format!("kit-{}", i);
        db.upsert_skill(&sample("a", &slug, &format!("Kit {}", i), 1, false));
        hits.push(hit("a", &slug, &format!("Kit {}", i), 500));
    }
    let out = text_fallback(&db, &hits, 12, None);
    assert_eq!(out.len(), 12);
    assert_eq!(out[0].score, 1000);
    assert_eq!(out[1].score, 900);
    assert_eq!(out[10].score, 0);
    assert_eq!(out[11].score, -100);
}

#[test]
fn get_skill_by_id_finds_the_upserted_record() {
    let mut db = Database::new();
    let id = db.upsert_skill(&sample("anthropic", "pdf-tools", "PDF Tools", 120, true));
    let rec = db.get_skill_by_id(id).unwrap();
    assert_eq!(rec.slug, "pdf-tools");
    assert!(db.get_skill_by_id(id + 7).is_none());
}

#[test]
fn unique_key_joins_registry_and_slug() {
    let h = hit("anthropic", "pdf-tools", "PDF Tools", 1);
    assert_eq!(h.unique_key(), "anthropic:pdf-tools");
}
