use codeinput::commands::{
    file_passes, filter_files, output_format_name, owner_type_name, owners_display,
    parse_cache_encoding, parse_output_format, rank_by_count, sample_files, tags_display,
    text_contains, FileFilter,
};
use codeinput::types::{CacheEncoding, FileEntry, OutputFormat, Owner, OwnerType, Tag};

fn file(path: &str, owners: &[&str], tags: &[&str]) -> FileEntry {
    FileEntry {
        path: path.to_string(),
        owners: owners
            .iter()
            .map(|name| Owner { identifier: name.to_string(), owner_type: OwnerType::User })
            .collect(),
        tags: tags.iter().map(|tag| Tag(tag.to_string())).collect(),
    }
}

fn filter(tags: Option<&str>, owners: Option<&str>, unowned: bool, show_all: bool) -> FileFilter {
    FileFilter {
        tags: tags.map(|text| text.to_string()),
        owners: owners.map(|text| text.to_string()),
        unowned,
        show_all,
    }
}

fn files() -> Vec<FileEntry> {
    vec![
        file("src/main.rs", &["@alice", "@org/core"], &["code"]),
        file("docs/guide.md", &["@bob"], &[]),
        file("LICENSE", &[], &[]),
        file("assets/logo.png", &[], &["design"]),
    ]
}

fn shown(filter: &FileFilter) -> Vec<String> {
    filter_files(&files(), filter).into_iter().map(|file| file.path).collect()
}

#[test]
fn output_format_is_read_in_any_case() {
    assert_eq!(parse_output_format("text"), Ok(OutputFormat::Text));
    assert_eq!(parse_output_format("JSON"), Ok(OutputFormat::Json));
    assert_eq!(parse_output_format("BinCode"), Ok(OutputFormat::Bincode));
    assert_eq!(parse_output_format("yaml"), Err("Invalid output format: yaml".to_string()));
    assert_eq!(parse_output_format(""), Err("Invalid output format: ".to_string()));
    assert_eq!(parse_output_format("text "), Err("Invalid output format: text ".to_string()));
}

#[test]
fn cache_encoding_is_read_in_any_case() {
    assert_eq!(parse_cache_encoding("bincode"), Ok(CacheEncoding::Bincode));
    assert_eq!(parse_cache_encoding("Json"), Ok(CacheEncoding::Json));
    assert_eq!(parse_cache_encoding("text"), Err("Invalid cache encoding: text".to_string()));
}

#[test]
fn names_of_formats_and_categories() {
    assert_eq!(output_format_name(OutputFormat::Text), "text");
    assert_eq!(output_format_name(OutputFormat::Json), "json");
    assert_eq!(output_format_name(OutputFormat::Bincode), "bincode");
    assert_eq!(owner_type_name(OwnerType::User), "User");
    assert_eq!(owner_type_name(OwnerType::Team), "Team");
    assert_eq!(owner_type_name(OwnerType::Email), "Email");
    assert_eq!(owner_type_name(OwnerType::Unowned), "Unowned");
    assert_eq!(owner_type_name(OwnerType::Unknown), "Unknown");
}

#[test]
fn text_contains_finds_patterns_anywhere() {
    let chars = |text: &str| text.chars().collect::<Vec<char>>();
    assert!(text_contains(&chars("@org/core"), &chars("org")));
    assert!(text_contains(&chars("@org/core"), &chars("core")));
    assert!(text_contains(&chars("@org/core"), &chars("@")));
    assert!(text_contains(&chars("@org/core"), &chars("")));
    assert!(text_contains(&chars(""), &chars("")));
    assert!(!text_contains(&chars("@org/core"), &chars("cores")));
    assert!(!text_contains(&chars("aab"), &chars("aba")));
    assert!(text_contains(&chars("aaab"), &chars("aab")));
}

#[test]
fn listing_hides_what_has_neither_owner_nor_tag() {
    assert_eq!(
        shown(&filter(None, None, false, false)),
        vec!["src/main.rs", "docs/guide.md", "assets/logo.png"]
    );
    assert_eq!(
        shown(&filter(None, None, false, true)),
        vec!["src/main.rs", "docs/guide.md", "LICENSE", "assets/logo.png"]
    );
}

#[test]
fn listing_by_owner_and_tag() {
    assert_eq!(shown(&filter(None, Some("bob,zed"), false, false)), vec!["docs/guide.md"]);
    assert_eq!(shown(&filter(None, Some("org"), false, false)), vec!["src/main.rs"]);
    assert_eq!(shown(&filter(Some("design,code"), None, false, false)), vec!["src/main.rs", "assets/logo.png"]);
    assert_eq!(shown(&filter(Some("code"), Some("alice"), false, false)), vec!["src/main.rs"]);
    assert!(shown(&filter(Some("design"), Some("alice"), false, false)).is_empty());
    // an empty piece is held by every name, but only a file with a name has one
    assert_eq!(shown(&filter(None, Some("zed,"), false, true)), vec!["src/main.rs", "docs/guide.md"]);
}

#[test]
fn listing_the_unowned() {
    assert_eq!(shown(&filter(None, None, true, false)), vec!["LICENSE", "assets/logo.png"]);
    assert_eq!(shown(&filter(Some("design"), None, true, false)), vec!["assets/logo.png"]);
    assert!(shown(&filter(None, Some("alice"), true, false)).is_empty());
    assert!(file_passes(&file("x", &[], &[]), &filter(None, None, true, false)));
    assert!(!file_passes(&file("x", &[], &[]), &filter(None, None, false, false)));
}

#[test]
fn columns_of_names() {
    let entry = file("a", &["@alice", "@org/core"], &["code", "api", "x"]);
    assert_eq!(owners_display(&entry.owners), "@alice, @org/core");
    assert_eq!(tags_display(&entry.tags), "code, api, x");
    assert_eq!(owners_display(&[]), "None");
    assert_eq!(tags_display(&[]), "None");
    assert_eq!(tags_display(&entry.tags[..1]), "code");
}

#[test]
fn sample_files_show_names_and_count_the_rest() {
    let paths: Vec<String> = ["src/a.rs", "src/deep/b.rs", "c.rs", "/d/e.rs", "f/g/h.rs"]
        .iter()
        .map(|path| path.to_string())
        .collect();
    assert_eq!(sample_files(&paths, 3), "a.rs, b.rs, c.rs (+2)");
    assert_eq!(sample_files(&paths, 5), "a.rs, b.rs, c.rs, e.rs, h.rs");
    assert_eq!(sample_files(&paths[..1], 3), "a.rs");
    assert_eq!(sample_files(&paths[..0], 3), "None");
    assert_eq!(sample_files(&paths, 0), " (+5)");
    let many: Vec<String> = (0..1205).map(|i| format!("dir/file{}.txt", i)).collect();
    assert_eq!(sample_files(&many, 5), "file0.txt, file1.txt, file2.txt, file3.txt, file4.txt (+1200)");
    let odd: Vec<String> = ["/", "a/..", ".", "x/"].iter().map(|path| path.to_string()).collect();
    assert_eq!(sample_files(&odd, 5), "/, a/.., ., x");
}

#[test]
fn ranking_is_by_count_then_by_place() {
    assert_eq!(rank_by_count(&[1, 5, 3, 5, 0, 3]), vec![1, 3, 2, 5, 0, 4]);
    assert_eq!(rank_by_count(&[]), Vec::<usize>::new());
    assert_eq!(rank_by_count(&[2, 2, 2]), vec![0, 1, 2]);
    assert_eq!(rank_by_count(&[0, 1, 2, 3]), vec![3, 2, 1, 0]);
}
