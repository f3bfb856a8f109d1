use moltis_skills::category::{merge_categories, rank_by_count, Category};
use moltis_skills::registry::{
    merge_category_results, merge_featured_results, merge_search_results, AggregatedRegistry,
    BuiltinFeaturedProvider, RegistryError, RegistryProvider,
};
use moltis_skills::skill::{dedup_skills, RegistrySkill};
use moltis_skills::text::{contains_str, replace_dashes};

fn skill(source: &str, name: &str, display: &str, description: &str, categories: &[&str]) -> RegistrySkill {
    RegistrySkill {
        source: source.to_string(),
        name: name.to_string(),
        display_name: display.to_string(),
        description: description.to_string(),
        author: String::new(),
        categories: categories.iter().map(|c| c.to_string()).collect(),
        license: None,
        stars: None,
        downloads: None,
        verified: false,
        updated_at: None,
        registry: String::new(),
        install_source: String::new(),
    }
}

/// A small featured catalog, in the shape of the compiled-in list.
fn featured_catalog() -> Vec<RegistrySkill> {
    vec![
        skill(
            "anthropics/skills",
            "docx",
            "Word Documents",
            "Create, edit and analyze Word documents",
            &["document-processing", "office"],
        ),
        skill(
            "anthropics/skills",
            "pdf",
            "PDF Toolkit",
            "Extract text and tables from PDF files",
            &["document-processing"],
        ),
        skill(
            "anthropics/skills",
            "webapp-testing",
            "Web App Testing",
            "Test local web applications with Playwright",
            &["testing", "web"],
        ),
        skill(
            "obra/superpowers",
            "brainstorming",
            "Brainstorming",
            "Refine rough ideas into designs",
            &["planning"],
        ),
    ]
}

fn category(id: &str, name: &str, count: usize) -> Category {
    Category { id: id.to_string(), name: name.to_string(), count }
}

#[test]
fn builtin_search_filters() {
    let provider = BuiltinFeaturedProvider::new(featured_catalog());
    let results = provider.search("document", 10).unwrap();
    assert!(
        results.iter().any(|s| s.name.contains("doc")),
        "search for 'document' should return doc-related skills"
    );
}

#[test]
fn builtin_categories_are_nonempty() {
    let provider = BuiltinFeaturedProvider::new(featured_catalog());
    let cats = provider.categories().unwrap();
    assert!(!cats.is_empty());
}

#[test]
fn aggregated_deduplicates() {
    let agg = AggregatedRegistry::new(vec![
        Box::new(BuiltinFeaturedProvider::new(featured_catalog())),
        Box::new(BuiltinFeaturedProvider::new(featured_catalog())),
    ]);
    let featured = agg.featured().unwrap();
    let builtin_featured = BuiltinFeaturedProvider::new(featured_catalog()).featured().unwrap();
    assert_eq!(featured.len(), builtin_featured.len(), "duplicates should be removed");
}

#[test]
fn builtin_search_is_case_insensitive() {
    let provider = BuiltinFeaturedProvider::new(featured_catalog());
    let results = provider.search("PDF", 10).unwrap();
    let names: Vec<&str> = results.iter().map(|s| s.name.as_str()).collect();
    assert_eq!(names, vec!["pdf"]);
}

#[test]
fn builtin_search_matches_categories_and_keeps_order() {
    let provider = BuiltinFeaturedProvider::new(featured_catalog());
    let results = provider.search("document-processing", 10).unwrap();
    let names: Vec<&str> = results.iter().map(|s| s.name.as_str()).collect();
    assert_eq!(names, vec!["docx", "pdf"]);
}

#[test]
fn builtin_search_respects_limit() {
    let provider = BuiltinFeaturedProvider::new(featured_catalog());
    let results = provider.search("", 2).unwrap();
    let names: Vec<&str> = results.iter().map(|s| s.name.as_str()).collect();
    assert_eq!(names, vec!["docx", "pdf"]);
    assert!(provider.search("", 0).unwrap().is_empty());
}

#[test]
fn builtin_search_without_match_is_empty() {
    let provider = BuiltinFeaturedProvider::new(featured_catalog());
    assert!(provider.search("kubernetes", 10).unwrap().is_empty());
}

#[test]
fn builtin_categories_count_and_rank() {
    let provider = BuiltinFeaturedProvider::new(featured_catalog());
    let cats = provider.categories().unwrap();
    assert_eq!(cats.len(), 5);
    assert_eq!(cats[0].id, "document-processing");
    assert_eq!(cats[0].name, "document processing");
    assert_eq!(cats[0].count, 2);
    for c in &cats[1..] {
        assert_eq!(c.count, 1);
    }
    let mut ids: Vec<&str> = cats.iter().map(|c| c.id.as_str()).collect();
    ids.sort();
    assert_eq!(ids, vec!["document-processing", "office", "planning", "testing", "web"]);
}

#[test]
fn builtin_featured_is_the_catalog() {
    let provider = BuiltinFeaturedProvider::new(featured_catalog());
    let all = provider.featured().unwrap();
    let names: Vec<&str> = all.iter().map(|s| s.name.as_str()).collect();
    assert_eq!(names, vec!["docx", "pdf", "webapp-testing", "brainstorming"]);
    assert_eq!(provider.name(), "Featured");
}

#[test]
fn dedup_keeps_first_occurrence() {
    let mut skills = vec![
        skill("a/x", "one", "First", "", &[]),
        skill("a/x", "two", "", "", &[]),
        skill("a/x", "one", "Second", "", &[]),
        skill("b/y", "one", "", "", &[]),
    ];
    dedup_skills(&mut skills);
    let got: Vec<(&str, &str, &str)> =
        skills.iter().map(|s| (s.source.as_str(), s.name.as_str(), s.display_name.as_str())).collect();
    assert_eq!(got, vec![("a/x", "one", "First"), ("a/x", "two", ""), ("b/y", "one", "")]);
}

#[test]
fn dedup_compares_source_and_name_as_a_pair() {
    // ("a:b", "c") and ("a", "b:c") are different skills, though joining
    // source and name with a colon would give the same text for both.
    let mut skills = vec![skill("a:b", "c", "", "", &[]), skill("a", "b:c", "", "", &[])];
    dedup_skills(&mut skills);
    let got: Vec<(&str, &str)> = skills.iter().map(|s| (s.source.as_str(), s.name.as_str())).collect();
    assert_eq!(got, vec![("a:b", "c"), ("a", "b:c")]);
}

#[test]
fn dedup_twice_is_dedup_once() {
    let mut skills = featured_catalog();
    skills.extend(featured_catalog());
    dedup_skills(&mut skills);
    let once: Vec<String> = skills.iter().map(|s| s.name.clone()).collect();
    dedup_skills(&mut skills);
    let twice: Vec<String> = skills.iter().map(|s| s.name.clone()).collect();
    assert_eq!(once, twice);
    assert_eq!(once.len(), 4);
}

#[test]
fn merge_search_skips_failures_dedups_and_truncates() {
    let results = vec![
        Err(RegistryError::Failed("offline".to_string())),
        Ok(vec![skill("s", "a", "", "", &[]), skill("s", "b", "", "", &[])]),
        Ok(vec![skill("s", "a", "", "", &[]), skill("s", "c", "", "", &[])]),
    ];
    let merged = merge_search_results(results, 2);
    let names: Vec<&str> = merged.iter().map(|s| s.name.as_str()).collect();
    assert_eq!(names, vec!["a", "b"]);
}

#[test]
fn merge_featured_keeps_everything_unique() {
    let results = vec![
        Ok(vec![skill("s", "a", "", "", &[])]),
        Err(RegistryError::Failed("timeout".to_string())),
        Ok(vec![skill("s", "b", "", "", &[]), skill("s", "a", "", "", &[])]),
    ];
    let merged = merge_featured_results(results);
    let names: Vec<&str> = merged.iter().map(|s| s.name.as_str()).collect();
    assert_eq!(names, vec!["a", "b"]);
}

#[test]
fn merge_categories_sums_counts_of_the_same_id() {
    let all = vec![category("web", "Web", 2), category("ai", "AI", 1), category("web", "web", 3)];
    let merged = merge_categories(&all).unwrap();
    assert_eq!(merged.len(), 2);
    assert_eq!((merged[0].id.as_str(), merged[0].name.as_str(), merged[0].count), ("web", "Web", 5));
    assert_eq!((merged[1].id.as_str(), merged[1].name.as_str(), merged[1].count), ("ai", "AI", 1));
}

#[test]
fn merge_categories_reports_overflow() {
    let all = vec![category("web", "Web", usize::MAX), category("web", "Web", 1)];
    assert!(matches!(merge_categories(&all), Err(RegistryError::CountOverflow)));
    let fits = vec![category("web", "Web", usize::MAX), category("ai", "AI", 1)];
    assert!(merge_categories(&fits).is_ok());
}

#[test]
fn rank_orders_by_count_descending() {
    let ranked = rank_by_count(vec![category("a", "a", 1), category("b", "b", 3), category("c", "c", 2), category("d", "d", 3)]);
    let ids: Vec<&str> = ranked.iter().map(|c| c.id.as_str()).collect();
    assert_eq!(ids, vec!["b", "d", "c", "a"]);
}

#[test]
fn merge_category_results_merges_ranks_and_skips_failures() {
    let results = vec![
        Ok(vec![category("web", "web", 1), category("ai", "ai", 4)]),
        Err(RegistryError::Failed("down".to_string())),
        Ok(vec![category("web", "web", 5)]),
    ];
    let cats = merge_category_results(results).unwrap();
    let got: Vec<(&str, usize)> = cats.iter().map(|c| (c.id.as_str(), c.count)).collect();
    assert_eq!(got, vec![("web", 6), ("ai", 4)]);
}

#[test]
fn builtin_only_answers_like_its_provider() {
    let agg = AggregatedRegistry::builtin_only(featured_catalog());
    assert_eq!(agg.name(), "All");
    let found = agg.search("doc", 1).unwrap();
    let names: Vec<&str> = found.iter().map(|s| s.name.as_str()).collect();
    assert_eq!(names, vec!["docx"]);
    let featured = agg.featured().unwrap();
    assert_eq!(featured.len(), 4);
    let cats = agg.categories().unwrap();
    assert_eq!(cats[0].id, "document-processing");
    assert_eq!(cats[0].count, 2);
}

#[test]
fn aggregated_categories_sum_over_providers() {
    let agg = AggregatedRegistry::new(vec![
        Box::new(BuiltinFeaturedProvider::new(featured_catalog())),
        Box::new(BuiltinFeaturedProvider::new(featured_catalog())),
    ]);
    let cats = agg.categories().unwrap();
    assert_eq!(cats.len(), 5);
    assert_eq!(cats[0].id, "document-processing");
    assert_eq!(cats[0].count, 4);
    assert!(cats[1..].iter().all(|c| c.count == 2));
}

struct FailingProvider;

impl RegistryProvider for FailingProvider {
    fn name(&self) -> &str {
        "Failing"
    }

    fn search(&self, _query: &str, _limit: usize) -> Result<Vec<RegistrySkill>, RegistryError> {
        Err(RegistryError::Failed("unreachable registry".to_string()))
    }

    fn categories(&self) -> Result<Vec<Category>, RegistryError> {
        Err(RegistryError::Failed("unreachable registry".to_string()))
    }

    fn featured(&self) -> Result<Vec<RegistrySkill>, RegistryError> {
        Err(RegistryError::Failed("unreachable registry".to_string()))
    }
}

#[test]
fn aggregated_ignores_failing_providers() {
    let agg = AggregatedRegistry::new(vec![
        Box::new(FailingProvider),
        Box::new(BuiltinFeaturedProvider::new(featured_catalog())),
    ]);
    let found = agg.search("web", 10).unwrap();
    let names: Vec<&str> = found.iter().map(|s| s.name.as_str()).collect();
    assert_eq!(names, vec!["webapp-testing"]);
    assert_eq!(agg.featured().unwrap().len(), 4);
    assert_eq!(agg.categories().unwrap().len(), 5);
}

#[test]
fn aggregated_with_no_providers_is_empty() {
    let agg = AggregatedRegistry::new(Vec::new());
    assert!(agg.search("x", 5).unwrap().is_empty());
    assert!(agg.featured().unwrap().is_empty());
    assert!(agg.categories().unwrap().is_empty());
}

#[test]
fn cloned_skill_is_equal_field_by_field() {
    let mut s = skill("o/r", "n", "N", "d", &["c1", "c2"]);
    s.license = Some("MIT".to_string());
    s.stars = Some(7);
    let c = s.clone();
    assert_eq!(c.source, s.source);
    assert_eq!(c.categories, s.categories);
    assert_eq!(c.license, s.license);
    assert_eq!(c.stars, s.stars);
}

#[test]
fn builtin_search_lowercases_the_fields() {
    let provider = BuiltinFeaturedProvider::new(featured_catalog());
    // Only the lowercased display name "word documents" holds "word".
    let results = provider.search("word", 10).unwrap();
    let names: Vec<&str> = results.iter().map(|s| s.name.as_str()).collect();
    assert_eq!(names, vec!["docx"]);
}

#[test]
fn builtin_search_ignores_ascii_case() {
    let provider = BuiltinFeaturedProvider::new(featured_catalog());
    let lower: Vec<String> = provider.search("docx", 10).unwrap().into_iter().map(|s| s.name).collect();
    let upper: Vec<String> = provider.search("DOCX", 10).unwrap().into_iter().map(|s| s.name).collect();
    assert_eq!(lower, vec!["docx".to_string()]);
    assert_eq!(lower, upper);
}

#[test]
fn aggregated_asks_providers_in_order() {
    let first = vec![skill("s", "b", "Beta", "", &[])];
    let second = vec![skill("s", "a", "Alpha", "", &[]), skill("s", "b", "Other beta", "", &[])];
    let agg = AggregatedRegistry::new(vec![
        Box::new(BuiltinFeaturedProvider::new(first)),
        Box::new(BuiltinFeaturedProvider::new(second)),
    ]);
    let all = agg.featured().unwrap();
    let got: Vec<(&str, &str)> = all.iter().map(|s| (s.name.as_str(), s.display_name.as_str())).collect();
    assert_eq!(got, vec![("b", "Beta"), ("a", "Alpha")]);
}

#[test]
fn contains_str_finds_runs_of_characters() {
    assert!(contains_str("word documents", "doc"));
    assert!(contains_str("héllo wörld", "ö"));
    assert!(contains_str("abc", ""));
    assert!(contains_str("", ""));
    assert!(!contains_str("", "a"));
    assert!(!contains_str("ab", "abc"));
    assert!(!contains_str("aab", "abb"));
    assert!(contains_str("aab", "ab"));
}

#[test]
fn replace_dashes_turns_each_dash_into_a_space() {
    assert_eq!(replace_dashes("document-processing"), "document processing");
    assert_eq!(replace_dashes("--é-"), "  é ");
    assert_eq!(replace_dashes(""), "");
}

#[test]
fn rank_keeps_input_order_among_equal_counts() {
    let ranked = rank_by_count(vec![
        category("x", "x", 2),
        category("y", "y", 5),
        category("z", "z", 2),
        category("w", "w", 2),
    ]);
    let ids: Vec<&str> = ranked.iter().map(|c| c.id.as_str()).collect();
    assert_eq!(ids, vec!["y", "x", "z", "w"]);
}
