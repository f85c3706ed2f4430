use skill_search::db::Database;
use skill_search::index::{document_content, SearchResult as IndexHit};
use skill_search::search::search;
use skill_search::skill::Skill;
use tantivy::collector::TopDocs;
use tantivy::query::QueryParser;
use tantivy::schema::{Schema, Value, STORED, STRING, TEXT};
use tantivy::{Index, TantivyDocument};

fn sample(registry: &str, slug: &str, name: &str, stars: i64) -> Skill {
    Skill {
        id: 0,
        slug: slug.to_string(),
        name: name.to_string(),
        registry: registry.to_string(),
        description: format!("{} description", name),
        skill_md: "long form body".to_string(),
        github_url: format!("https://github.com/example/{}", slug),
        version: None,
        stars,
        trusted: false,
        updated_at: 0,
    }
}

/// Rebuilds an in-memory inverted index from the store, searches it for a
/// record's exact name, and runs the library's fallback enrichment over the
/// raw hits: the record must come back.
#[test]
fn rebuild_then_search_round_trips_exact_name() {
    let mut db = Database::new();
    db.upsert_skill(&sample("anthropic", "pdf-tools", "PDF Tools", 120));
    db.upsert_skill(&sample("openai", "csv-kit", "CSV Kit", 50));

    let mut schema_builder = Schema::builder();
    let slug_field = schema_builder.add_text_field("slug", TEXT | STORED);
    let name_field = schema_builder.add_text_field("name", TEXT | STORED);
    let description_field = schema_builder.add_text_field("description", TEXT | STORED);
    let content_field = schema_builder.add_text_field("content", TEXT);
    let registry_field = schema_builder.add_text_field("registry", STRING | STORED);
    let schema = schema_builder.build();
    let index = Index::create_in_ram(schema);

    let mut writer: tantivy::IndexWriter = index.writer(50_000_000).unwrap();
    writer.delete_all_documents().unwrap();
    for skill in db.get_all_skills() {
        let mut doc = TantivyDocument::new();
        doc.add_text(slug_field, &skill.slug);
        doc.add_text(name_field, &skill.name);
        doc.add_text(description_field, &skill.description);
        doc.add_text(registry_field, &skill.registry);
        doc.add_text(content_field, &document_content(&skill));
        writer.add_document(doc).unwrap();
    }
    writer.commit().unwrap();

    let reader = index.reader().unwrap();
    let searcher = reader.searcher();
    let parser = QueryParser::for_index(&index, vec![name_field, description_field, content_field]);
    let query = parser.parse_query("\"PDF Tools\"").unwrap();
    let top = searcher
        .search(&query, &TopDocs::with_limit(10).order_by_score())
        .unwrap();
    assert!(!top.is_empty());

    let mut hits: Vec<IndexHit> = Vec::new();
    for (score, addr) in top {
        let doc: TantivyDocument = searcher.doc(addr).unwrap();
        let get = |f| {
            doc.get_first(f)
                .and_then(|v| v.as_str())
                .unwrap_or("")
                .to_string()
        };
        hits.push(IndexHit {
            slug: get(slug_field),
            name: get(name_field),
            description: get(description_field),
            registry: get(registry_field),
            score: (score * 1000.0) as i64,
        });
    }
    assert!(hits.iter().any(|h| h.slug == "pdf-tools"));

    let no_embeddings_query = vec![0i32; 384];
    let out = search(&db, &no_embeddings_query, &hits, 10, None);
    assert!(out.iter().any(|r| r.slug == "pdf-tools" && r.registry == "anthropic"));
}
