use std::sync::atomic::{AtomicUsize, Ordering};

use nomo_lsp::incremental::{
    dependency_paths, manifest_candidates, manifest_search_dirs, nearest_manifest, path_precedes, same_path, CacheStats,
    IncrementalSession,
    QueryCache, QueryKey,
};

fn key(namespace: &str, identity: &str, path: &str, text: &str, overrides: &[(&str, &str)]) -> QueryKey {
    let overrides = overrides
        .iter()
        .map(|(p, t)| (p.to_string(), t.to_string()))
        .collect::<Vec<_>>();
    QueryKey::for_document(
        namespace,
        identity.to_string(),
        &path.to_string(),
        text,
        &overrides,
        None,
        "0.1.0",
        "x86_64-linux",
    )
}

#[test]
fn query_fingerprint_is_independent_of_overlay_order() {
    let left = [("src/a.nomo", "a"), ("src/b.nomo", "b")];
    let mut right = left;
    right.reverse();
    assert_eq!(
        key("diagnostics", "main", "src/main.nomo", "source", &left),
        key("diagnostics", "main", "src/main.nomo", "source", &right)
    );
}

#[test]
fn query_fingerprint_changes_with_the_text_and_the_overlays() {
    let base = key("diagnostics", "main", "src/main.nomo", "source", &[]);
    assert_eq!(base.fingerprint.len(), 32);
    assert_ne!(base, key("diagnostics", "main", "src/main.nomo", "other", &[]));
    assert_ne!(base, key("diagnostics", "main", "src/main.nomo", "source", &[("src/a.nomo", "a")]));
    assert_ne!(
        key("diagnostics", "main", "src/main.nomo", "source", &[("src/a.nomo", "a")]),
        key("diagnostics", "main", "src/main.nomo", "source", &[("src/a.nomo", "b")])
    );
    assert_eq!(base.namespace, "diagnostics");
    assert_eq!(base.identity, "main");
}

#[test]
fn query_fingerprint_frames_the_document_bytes() {
    // Moving a byte from the path into the text must change the fingerprint.
    assert_ne!(key("q", "i", "ab", "c", &[]).fingerprint, key("q", "i", "a", "bc", &[]).fingerprint);
}

#[test]
fn query_fingerprint_includes_the_manifest() {
    let path = "src/main.nomo".to_string();
    let with = |manifest: Option<(String, Result<Vec<u8>, String>)>| {
        QueryKey::for_document("q", "i".to_string(), &path, "t", &Vec::new(), manifest, "v", "h")
    };
    let none = with(None);
    let some = with(Some(("nomo.toml".to_string(), Ok(b"[package]".to_vec()))));
    let unreadable = with(Some(("nomo.toml".to_string(), Err("denied".to_string()))));
    assert_ne!(none.fingerprint, some.fingerprint);
    assert_ne!(some.fingerprint, unreadable.fingerprint);
}

#[test]
fn cache_hits_and_invalidates_declared_document_dependencies() {
    let mut cache = QueryCache::default();
    let path = "src/main.nomo".to_string();
    let k = key("test", "main", &path, "source", &[]);
    let calls = AtomicUsize::new(0);
    let first = cache.get_or_compute(k.clone(), vec![path.clone()], || {
        calls.fetch_add(1, Ordering::SeqCst);
        vec![1_u8]
    });
    let second = cache.get_or_compute(k, vec![path.clone()], || {
        calls.fetch_add(1, Ordering::SeqCst);
        vec![2_u8]
    });
    assert_eq!(first, second);
    assert_eq!(calls.load(Ordering::SeqCst), 1);
    assert_eq!(cache.invalidate_path(&path), 1);
    assert_eq!(cache.stats().entries, 0);
}

#[test]
fn cache_counts_hits_misses_and_invalidations() {
    let mut cache = QueryCache::new();
    let a = key("q", "a", "a.nomo", "x", &[]);
    let b = key("q", "b", "b.nomo", "y", &[]);
    cache.get_or_compute(a.clone(), vec!["a.nomo".to_string(), "shared.nomo".to_string()], || vec![1]);
    cache.get_or_compute(b.clone(), vec!["b.nomo".to_string()], || vec![2]);
    cache.get_or_compute(a, vec![], || vec![9]);
    assert_eq!(
        cache.stats(),
        CacheStats { hits: 1, misses: 2, invalidations: 0, entries: 2 }
    );
    assert_eq!(cache.invalidate_path(&"shared.nomo".to_string()), 1);
    assert_eq!(cache.invalidate_path(&"nothing.nomo".to_string()), 0);
    assert_eq!(
        cache.stats(),
        CacheStats { hits: 1, misses: 2, invalidations: 1, entries: 1 }
    );
    assert_eq!(cache.clear(), 1);
    assert_eq!(cache.stats().entries, 0);
    assert_eq!(cache.get_or_compute(b, vec![], || vec![3]), vec![3]);
}

#[test]
fn session_sums_the_statistics_of_its_caches() {
    let mut session = IncrementalSession::new();
    let k = key("diagnostics", "main", "main.nomo", "t", &[]);
    session.diagnostics(k.clone(), vec!["main.nomo".to_string()], || vec![1]);
    session.diagnostics(k.clone(), vec!["main.nomo".to_string()], || vec![2]);
    session.completions(k.clone(), vec!["main.nomo".to_string()], || vec![3]);
    session.semantic_tokens(k.clone(), vec!["other.nomo".to_string()], || vec![4]);
    session.document_symbols(k, vec!["main.nomo".to_string()], || vec![5]);
    assert!(session.stats_fit());
    assert_eq!(session.total_entries(), 4);
    assert_eq!(
        session.stats(),
        CacheStats { hits: 1, misses: 4, invalidations: 0, entries: 4 }
    );
    assert_eq!(session.invalidate_path(&"main.nomo".to_string()), 3);
    assert_eq!(session.stats().entries, 1);
    assert_eq!(session.clear(), 1);
    assert_eq!(session.stats().entries, 0);
}

#[test]
fn cache_stats_add_field_by_field() {
    let a = CacheStats { hits: 1, misses: 2, invalidations: 3, entries: 4 };
    let b = CacheStats { hits: 10, misses: 20, invalidations: 30, entries: 40 };
    assert_eq!(a.add(b), CacheStats { hits: 11, misses: 22, invalidations: 33, entries: 44 });
}

#[test]
fn dependency_paths_are_sorted_and_unique() {
    let overrides = vec![
        ("src/b.nomo".to_string(), "b".to_string()),
        ("src/a.nomo".to_string(), "a".to_string()),
        ("src/main.nomo".to_string(), "m".to_string()),
    ];
    let paths = dependency_paths(
        &"src/main.nomo".to_string(),
        &overrides,
        Some("nomo.toml".to_string()),
    );
    assert_eq!(paths, vec!["nomo.toml", "src/a.nomo", "src/b.nomo", "src/main.nomo"]);
    assert_eq!(dependency_paths(&"x.nomo".to_string(), &Vec::new(), None), vec!["x.nomo"]);
}

#[test]
fn nearest_manifest_takes_the_closest_existing_candidate() {
    let candidates = manifest_candidates(&vec![
        "/work/app/src".to_string(),
        "/work/app".to_string(),
        "/".to_string(),
    ]);
    assert_eq!(
        candidates,
        vec!["/work/app/src/nomo.toml", "/work/app/nomo.toml", "/nomo.toml"]
    );
    assert_eq!(
        nearest_manifest(&candidates, &vec![false, true, true]),
        Some("/work/app/nomo.toml".to_string())
    );
    assert_eq!(nearest_manifest(&candidates, &vec![false, false, false]), None);
}

#[test]
fn paths_compare_by_components() {
    let s = |x: &str| x.to_string();
    assert!(same_path(&s("src//a/./b.nomo"), &s("src/a/b.nomo")));
    assert!(same_path(&s("src/a/"), &s("src/a")));
    assert!(!same_path(&s("./a"), &s("a")));
    assert!(!same_path(&s("/a"), &s("a")));
    assert!(path_precedes(&s("src/a.nomo"), &s("src-x/b.nomo")));
    assert!(!path_precedes(&s("src-x/b.nomo"), &s("src/a.nomo")));
    assert!(path_precedes(&s("/z"), &s("a")));
    assert!(path_precedes(&s("../x"), &s("a")));
    assert!(!path_precedes(&s("a//b"), &s("a/b")));
}

#[test]
fn dependency_paths_keep_one_spelling_per_path() {
    let overrides = vec![
        ("src//a.nomo".to_string(), "a".to_string()),
        ("src/a.nomo".to_string(), "again".to_string()),
        ("src-x/b.nomo".to_string(), "b".to_string()),
    ];
    let paths = dependency_paths(&"src/./a.nomo".to_string(), &overrides, None);
    assert_eq!(paths, vec!["src//a.nomo", "src-x/b.nomo"]);
}

#[test]
fn invalidation_matches_paths_by_components() {
    let mut cache = QueryCache::new();
    let k = key("q", "a", "src/a.nomo", "x", &[]);
    cache.get_or_compute(k, vec!["src//a.nomo".to_string()], || vec![1]);
    assert_eq!(cache.invalidate_path(&"src/./a.nomo".to_string()), 1);
}

#[test]
fn query_fingerprint_sorts_overlays_by_path_components() {
    let left = [("src-x/b.nomo", "b"), ("src/a.nomo", "a")];
    let right = [("src/a.nomo", "a"), ("src-x/b.nomo", "b")];
    assert_eq!(
        key("diagnostics", "main", "src/main.nomo", "source", &left),
        key("diagnostics", "main", "src/main.nomo", "source", &right)
    );
}

fn search(path: &str, is_dir: bool) -> Vec<String> {
    manifest_search_dirs(&path.to_string(), is_dir)
}

#[test]
fn manifest_search_walks_up_from_a_file_s_directory() {
    assert_eq!(search("/w/app/src/main.nomo", false), vec!["/w/app/src", "/w/app", "/w", "/"]);
}

#[test]
fn manifest_search_starts_at_a_directory_itself() {
    assert_eq!(search("/w/app", true), vec!["/w/app", "/w", "/"]);
    assert_eq!(search("/", true), vec!["/"]);
    assert_eq!(search("/", false), Vec::<String>::new());
    assert_eq!(search("", false), Vec::<String>::new());
}

#[test]
fn manifest_search_reads_relative_paths_as_std_does() {
    assert_eq!(search("a/b.nomo", false), vec!["a", ""]);
    assert_eq!(search("b.nomo", false), vec![""]);
    assert_eq!(search("./a", false), vec![".", ""]);
    assert_eq!(search("a//b/./", true), vec!["a//b/./", "a", ""]);
    assert_eq!(search("../x/y.nomo", false), vec!["../x", "..", ""]);
}

#[test]
fn manifest_search_skips_repeated_and_trailing_separators() {
    assert_eq!(search("//w//app/", true), vec!["//w//app/", "//w", "/"]);
    assert_eq!(search("/w/./src/./", true), vec!["/w/./src/./", "/w", "/"]);
}

#[test]
fn manifest_search_feeds_nearest_manifest() {
    let dirs = search("/w/app/src/main.nomo", false);
    let candidates = manifest_candidates(&dirs);
    assert_eq!(candidates, vec!["/w/app/src/nomo.toml", "/w/app/nomo.toml", "/w/nomo.toml", "/nomo.toml"]);
    let found = nearest_manifest(&candidates, &vec![false, true, true, false]);
    assert_eq!(found, Some("/w/app/nomo.toml".to_string()));
}
