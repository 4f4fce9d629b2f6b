use codeinput::cache::{
    assemble_cache, build_cache, is_cache_consistent, resolve_files, same_hash, sync_cache,
    StoredCache, SyncDecision,
};
use codeinput::lookup::{
    collect_owners, collect_tags, find_files_for_owner, find_files_for_tag, owner_paths, tag_paths,
};
use codeinput::matcher::compile_matchers;
use codeinput::types::{CodeownersCache, CodeownersEntry, ErrorKind, FileEntry, Owner, OwnerType, Tag};
use codeinput::start;

fn owner(identifier: &str, owner_type: OwnerType) -> Owner {
    Owner {
        identifier: identifier.to_string(),
        owner_type,
    }
}

fn rule(source: &str, line: usize, pattern: &str, owners: Vec<Owner>, tags: &[&str]) -> CodeownersEntry {
    CodeownersEntry {
        source_file: source.to_string(),
        line_number: line,
        pattern: pattern.to_string(),
        owners,
        tags: tags.iter().map(|tag| Tag(tag.to_string())).collect(),
    }
}

fn sample_entries() -> Vec<CodeownersEntry> {
    vec![
        rule("/repo/CODEOWNERS", 1, "*", vec![owner("@all", OwnerType::User)], &["any"]),
        rule(
            "/repo/CODEOWNERS",
            2,
            "*.rs",
            vec![owner("@org/rust", OwnerType::Team), owner("@all", OwnerType::User)],
            &["code", "any"],
        ),
        rule("/repo/docs/CODEOWNERS", 1, "*.md", vec![owner("docs@example.com", OwnerType::Email)], &[]),
        rule("/repo/CODEOWNERS", 9, "[broken", vec![owner("@ghost", OwnerType::User)], &["ghost"]),
    ]
}

fn sample_files() -> Vec<String> {
    vec![
        "/repo/src/main.rs".to_string(),
        "/repo/docs/guide.md".to_string(),
        "/repo/docs/logo.png".to_string(),
        "/repo/src/lib.rs".to_string(),
    ]
}

fn paths_of(cache: &CodeownersCache, identifier: &str) -> Vec<String> {
    cache
        .owners_map
        .iter()
        .find(|(key, _)| key.identifier == identifier)
        .map(|(_, paths)| paths.clone())
        .unwrap()
}

#[test]
fn start_succeeds() {
    assert!(start().is_ok());
}

#[test]
fn build_cache_resolves_every_file_in_order() {
    let cache = build_cache(sample_entries(), sample_files(), [7u8; 32]).unwrap();
    assert_eq!(cache.hash, [7u8; 32]);
    assert_eq!(cache.entries.len(), 4);
    let paths: Vec<&str> = cache.files.iter().map(|file| file.path.as_str()).collect();
    assert_eq!(
        paths,
        vec!["/repo/src/main.rs", "/repo/docs/guide.md", "/repo/docs/logo.png", "/repo/src/lib.rs"]
    );
    let owners: Vec<Vec<&str>> = cache
        .files
        .iter()
        .map(|file| file.owners.iter().map(|o| o.identifier.as_str()).collect())
        .collect();
    assert_eq!(
        owners,
        vec![vec!["@org/rust", "@all"], vec!["docs@example.com"], vec!["@all"], vec!["@org/rust", "@all"]]
    );
    let tags: Vec<Vec<&str>> = cache
        .files
        .iter()
        .map(|file| file.tags.iter().map(|t| t.0.as_str()).collect())
        .collect();
    assert_eq!(tags, vec![vec!["code", "any"], vec![], vec!["any"], vec!["code", "any"]]);
}

#[test]
fn build_cache_indexes_the_owners_and_tags_of_the_entries() {
    let cache = build_cache(sample_entries(), sample_files(), [0u8; 32]).unwrap();
    let keys: Vec<&str> = cache.owners_map.iter().map(|(key, _)| key.identifier.as_str()).collect();
    assert_eq!(keys, vec!["@all", "@org/rust", "docs@example.com", "@ghost"]);
    assert_eq!(
        paths_of(&cache, "@all"),
        vec!["/repo/src/main.rs", "/repo/docs/logo.png", "/repo/src/lib.rs"]
    );
    assert_eq!(paths_of(&cache, "@org/rust"), vec!["/repo/src/main.rs", "/repo/src/lib.rs"]);
    assert_eq!(paths_of(&cache, "docs@example.com"), vec!["/repo/docs/guide.md"]);
    assert!(paths_of(&cache, "@ghost").is_empty());
    let tags: Vec<(&str, usize)> = cache
        .tags_map
        .iter()
        .map(|(tag, paths)| (tag.0.as_str(), paths.len()))
        .collect();
    assert_eq!(tags, vec![("any", 3), ("code", 2), ("ghost", 0)]);
}

#[test]
fn index_agrees_with_the_files() {
    let cache = build_cache(sample_entries(), sample_files(), [0u8; 32]).unwrap();
    for (key, paths) in &cache.owners_map {
        assert_eq!(paths, &find_files_for_owner(&cache.files, key));
        for file in &cache.files {
            assert_eq!(paths.contains(&file.path), file.owners.contains(key));
        }
    }
    for (key, paths) in &cache.tags_map {
        assert_eq!(paths, &find_files_for_tag(&cache.files, key));
        for file in &cache.files {
            assert_eq!(paths.contains(&file.path), file.tags.contains(key));
        }
    }
}

#[test]
fn build_cache_fails_on_a_file_without_directory() {
    let mut files = sample_files();
    files.push("/".to_string());
    let error = build_cache(sample_entries(), files, [0u8; 32]).unwrap_err();
    assert_eq!(error.kind, ErrorKind::InvalidInput);
    let empty = build_cache(vec![], vec![], [1u8; 32]).unwrap();
    assert!(empty.files.is_empty() && empty.owners_map.is_empty() && empty.tags_map.is_empty());
}

#[test]
fn resolve_files_and_assemble_make_the_same_cache() {
    let matchers = compile_matchers(&sample_entries());
    let files = sample_files();
    let first: Vec<FileEntry> = resolve_files(&matchers, &files[..2]).unwrap();
    let second: Vec<FileEntry> = resolve_files(&matchers, &files[2..]).unwrap();
    let mut all = first;
    all.extend(second);
    let pieced = assemble_cache(sample_entries(), all, [3u8; 32]);
    let whole = build_cache(sample_entries(), sample_files(), [3u8; 32]).unwrap();
    assert_eq!(pieced.files.len(), whole.files.len());
    for (a, b) in pieced.files.iter().zip(whole.files.iter()) {
        assert_eq!(a.path, b.path);
        assert_eq!(a.owners, b.owners);
        assert_eq!(a.tags, b.tags);
    }
    assert_eq!(pieced.owners_map, whole.owners_map);
    assert_eq!(pieced.tags_map, whole.tags_map);
}

#[test]
fn collect_keeps_first_occurrences() {
    let entries = sample_entries();
    let owners = collect_owners(&entries);
    let names: Vec<&str> = owners.iter().map(|o| o.identifier.as_str()).collect();
    assert_eq!(names, vec!["@all", "@org/rust", "docs@example.com", "@ghost"]);
    let tags = collect_tags(&entries);
    let names: Vec<&str> = tags.iter().map(|t| t.0.as_str()).collect();
    assert_eq!(names, vec!["any", "code", "ghost"]);
    // the same identifier in two categories is two owners
    let twice = vec![rule(
        "/repo/CODEOWNERS",
        1,
        "*",
        vec![owner("x", OwnerType::User), owner("x", OwnerType::Team), owner("x", OwnerType::User)],
        &[],
    )];
    assert_eq!(collect_owners(&twice).len(), 2);
    assert!(collect_owners(&[]).is_empty());
}

#[test]
fn sync_keeps_a_cache_with_the_current_hash() {
    let cache = build_cache(sample_entries(), sample_files(), [5u8; 32]).unwrap();
    match sync_cache(StoredCache::Loaded(cache), &[5u8; 32]) {
        SyncDecision::Fresh(kept) => {
            assert_eq!(kept.hash, [5u8; 32]);
            assert_eq!(kept.files.len(), 4);
        }
        SyncDecision::Rebuild => panic!("a cache with the current hash is fresh"),
    }
}

#[test]
fn sync_rebuilds_what_is_stale_missing_or_unreadable() {
    let cache = build_cache(sample_entries(), sample_files(), [5u8; 32]).unwrap();
    let mut other = [5u8; 32];
    other[31] = 6;
    assert!(matches!(sync_cache(StoredCache::Loaded(cache), &other), SyncDecision::Rebuild));
    assert!(matches!(sync_cache(StoredCache::Missing, &other), SyncDecision::Rebuild));
    assert!(matches!(sync_cache(StoredCache::Unreadable, &other), SyncDecision::Rebuild));
}

#[test]
fn sync_twice_rebuilds_once() {
    let hash = [9u8; 32];
    let cache = match sync_cache(StoredCache::Missing, &hash) {
        SyncDecision::Fresh(cache) => cache,
        SyncDecision::Rebuild => build_cache(sample_entries(), sample_files(), hash).unwrap(),
    };
    assert_eq!(cache.hash, hash);
    match sync_cache(StoredCache::Loaded(cache), &hash) {
        SyncDecision::Fresh(again) => assert_eq!(again.hash, hash),
        SyncDecision::Rebuild => panic!("the second run must not rebuild"),
    }
}

#[test]
fn same_hash_compares_all_bytes() {
    let a = [1u8; 32];
    let mut b = [1u8; 32];
    assert!(same_hash(&a, &b));
    b[0] = 2;
    assert!(!same_hash(&a, &b));
    b[0] = 1;
    b[31] = 0;
    assert!(!same_hash(&a, &b));
}

#[test]
fn consistency_is_checked_by_deriving_the_indexes_anew() {
    let cache = build_cache(sample_entries(), sample_files(), [0u8; 32]).unwrap();
    assert!(is_cache_consistent(&cache));

    let mut lost = build_cache(sample_entries(), sample_files(), [0u8; 32]).unwrap();
    lost.owners_map[0].1.pop();
    assert!(!is_cache_consistent(&lost));

    let mut reordered = build_cache(sample_entries(), sample_files(), [0u8; 32]).unwrap();
    reordered.tags_map[0].1.reverse();
    assert!(!is_cache_consistent(&reordered));

    let mut doubled = build_cache(sample_entries(), sample_files(), [0u8; 32]).unwrap();
    let again = doubled.tags_map[1].clone();
    doubled.tags_map.push(again);
    assert!(!is_cache_consistent(&doubled));

    let mut changed = build_cache(sample_entries(), sample_files(), [0u8; 32]).unwrap();
    changed.files[0].owners.clear();
    assert!(!is_cache_consistent(&changed));
}

#[test]
fn chunks_resolve_as_the_whole_list() {
    let matchers = compile_matchers(&sample_entries());
    let files = sample_files();
    let whole = resolve_files(&matchers, &files).unwrap();
    for cut in 0..=files.len() {
        let mut pieced = resolve_files(&matchers, &files[..cut]).unwrap();
        pieced.extend(resolve_files(&matchers, &files[cut..]).unwrap());
        assert_eq!(pieced.len(), whole.len());
        for (a, b) in pieced.iter().zip(whole.iter()) {
            assert_eq!((&a.path, &a.owners, &a.tags), (&b.path, &b.owners, &b.tags));
        }
    }
}

#[test]
fn an_index_is_looked_up_by_key() {
    let cache = build_cache(sample_entries(), sample_files(), [0u8; 32]).unwrap();
    // found: the paths of the key
    let rust = owner("@org/rust", OwnerType::Team);
    assert_eq!(
        owner_paths(&cache.owners_map, &rust),
        Some(vec!["/repo/src/main.rs".to_string(), "/repo/src/lib.rs".to_string()])
    );
    assert_eq!(owner_paths(&cache.owners_map, &owner("@ghost", OwnerType::User)), Some(vec![]));
    assert_eq!(tag_paths(&cache.tags_map, &Tag("code".to_string())).map(|paths| paths.len()), Some(2));
    // not found: no such key, or the same identifier in another category
    assert_eq!(owner_paths(&cache.owners_map, &owner("@nobody", OwnerType::User)), None);
    assert_eq!(owner_paths(&cache.owners_map, &owner("@org/rust", OwnerType::User)), None);
    assert_eq!(tag_paths(&cache.tags_map, &Tag("none".to_string())), None);
    assert_eq!(owner_paths(&[], &rust), None);
    // a repeated key: the last pair counts
    let twice = vec![
        (Tag("t".to_string()), vec!["first".to_string()]),
        (Tag("u".to_string()), vec!["other".to_string()]),
        (Tag("t".to_string()), vec!["last".to_string()]),
    ];
    assert_eq!(tag_paths(&twice, &Tag("t".to_string())), Some(vec!["last".to_string()]));
    let twice = vec![
        (owner("x", OwnerType::User), vec!["first".to_string()]),
        (owner("x", OwnerType::User), vec!["last".to_string()]),
        (owner("x", OwnerType::Team), vec!["team".to_string()]),
    ];
    assert_eq!(
        owner_paths(&twice, &owner("x", OwnerType::User)),
        Some(vec!["last".to_string()])
    );
}
