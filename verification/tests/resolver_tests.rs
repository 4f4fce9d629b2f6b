use codeinput::matcher::{codeowners_entry_to_matcher, compile_matchers, CodeownersEntryMatcher};
use codeinput::resolver::{find_owners_and_tags_for_file, find_owners_for_file};
use codeinput::types::{CodeownersEntry, ErrorKind, Owner, OwnerType, Tag};
use ignore::overrides::OverrideBuilder;
use std::path::Path;

fn create_owner(identifier: &str, owner_type: OwnerType) -> Owner {
    Owner {
        identifier: identifier.to_string(),
        owner_type,
    }
}

fn create_tag(name: &str) -> Tag {
    Tag(name.to_string())
}

fn create_test_codeowners_entry_matcher(
    source_file: &str, line_number: usize, pattern: &str, owners: Vec<Owner>, tags: Vec<Tag>,
) -> CodeownersEntryMatcher {
    let source_path = Path::new(source_file);
    let codeowners_dir = source_path.parent().unwrap();

    let mut builder = OverrideBuilder::new(codeowners_dir);
    builder.add(pattern).unwrap();
    let override_matcher = builder.build().unwrap();

    CodeownersEntryMatcher {
        source_file: source_file.to_string(),
        line_number,
        pattern: pattern.to_string(),
        owners,
        tags,
        override_matcher,
    }
}

fn entry(source_file: &str, line_number: usize, pattern: &str, owner: &str) -> CodeownersEntry {
    CodeownersEntry {
        source_file: source_file.to_string(),
        line_number,
        pattern: pattern.to_string(),
        owners: vec![create_owner(owner, OwnerType::User)],
        tags: vec![],
    }
}

fn owner_names(file: &str, entries: &[CodeownersEntry]) -> Vec<String> {
    find_owners_for_file(file, entries)
        .unwrap()
        .into_iter()
        .map(|owner| owner.identifier)
        .collect()
}

#[test]
fn test_find_owners_and_tags_for_file_empty_entries() {
    let entries: Vec<CodeownersEntryMatcher> = vec![];
    let file_path = "/project/src/main.rs";
    let result = find_owners_and_tags_for_file(file_path, &entries).unwrap();
    assert!(result.0.is_empty());
    assert!(result.1.is_empty());
}

#[test]
fn test_find_owners_and_tags_for_file_simple_match() {
    let expected_owner = create_owner("@rust-team", OwnerType::Team);
    let expected_tag = create_tag("rust");
    let entries = vec![create_test_codeowners_entry_matcher(
        "/project/CODEOWNERS",
        1,
        "*.rs",
        vec![expected_owner.clone()],
        vec![expected_tag.clone()],
    )];

    let file_path = "/project/src/main.rs";
    let result = find_owners_and_tags_for_file(file_path, &entries).unwrap();

    assert_eq!(result.0.len(), 1);
    assert_eq!(result.0[0], expected_owner);
    assert_eq!(result.1.len(), 1);
    assert_eq!(result.1[0], expected_tag);
}

#[test]
fn test_find_owners_and_tags_for_file_directory_hierarchy() {
    let root_owner = create_owner("@root-team", OwnerType::Team);
    let root_tag = create_tag("root");
    let src_owner = create_owner("@src-team", OwnerType::Team);
    let src_tag = create_tag("source");

    let entries = vec![
        create_test_codeowners_entry_matcher(
            "/project/CODEOWNERS",
            1,
            "*",
            vec![root_owner.clone()],
            vec![root_tag.clone()],
        ),
        create_test_codeowners_entry_matcher(
            "/project/src/CODEOWNERS",
            1,
            "*.rs",
            vec![src_owner.clone()],
            vec![src_tag.clone()],
        ),
    ];

    let file_path = "/project/src/main.rs";
    let result = find_owners_and_tags_for_file(file_path, &entries).unwrap();

    assert_eq!(result.0.len(), 1);
    assert_eq!(result.0[0], src_owner);
    assert_eq!(result.1.len(), 1);
    assert_eq!(result.1[0], src_tag);
}

#[test]
fn test_find_owners_and_tags_for_file_line_number_priority() {
    let general_owner = create_owner("@general-team", OwnerType::Team);
    let general_tag = create_tag("general");
    let specific_owner = create_owner("@specific-team", OwnerType::Team);
    let specific_tag = create_tag("specific");

    let entries = vec![
        create_test_codeowners_entry_matcher(
            "/project/CODEOWNERS",
            1,
            "*",
            vec![general_owner.clone()],
            vec![general_tag.clone()],
        ),
        create_test_codeowners_entry_matcher(
            "/project/CODEOWNERS",
            10,
            "src/*.rs",
            vec![specific_owner.clone()],
            vec![specific_tag.clone()],
        ),
    ];

    let file_path = "/project/src/main.rs";
    let result = find_owners_and_tags_for_file(file_path, &entries).unwrap();

    assert_eq!(result.0.len(), 1);
    assert_eq!(result.0[0], specific_owner);
    assert_eq!(result.1.len(), 1);
    assert_eq!(result.1[0], specific_tag);
}

#[test]
fn test_find_owners_and_tags_for_file_valid_pattern() {
    let entries = vec![create_test_codeowners_entry_matcher(
        "/project/CODEOWNERS",
        2,
        "*.rs",
        vec![create_owner("@team2", OwnerType::Team)],
        vec![create_tag("tag2")],
    )];

    let file_path = "/project/src/main.rs";
    let result = find_owners_and_tags_for_file(file_path, &entries).unwrap();

    assert_eq!(result.0.len(), 1);
    assert_eq!(result.0[0].identifier, "@team2");
    assert_eq!(result.1.len(), 1);
    assert_eq!(result.1[0].0, "tag2");
}

#[test]
fn resolve_without_directory_is_invalid_input() {
    let entries = compile_matchers(&[entry("/project/CODEOWNERS", 1, "*", "@a")]);
    for file in ["", "/", "//", "/."] {
        let error = find_owners_and_tags_for_file(file, &entries).unwrap_err();
        assert_eq!(error.kind, ErrorKind::InvalidInput);
    }
    // a bare file name lies in the empty directory
    assert!(find_owners_and_tags_for_file("main.rs", &entries).is_ok());
}

#[test]
fn nothing_applies_gives_empty_lists() {
    // the declaration lies beside the file's directory, not above it
    let aside = [entry("/project/docs/CODEOWNERS", 1, "*", "@docs")];
    assert!(owner_names("/project/src/main.rs", &aside).is_empty());
    // the declaration lies below the file
    let below = [entry("/project/src/deep/CODEOWNERS", 1, "*", "@deep")];
    assert!(owner_names("/project/src/main.rs", &below).is_empty());
    // a directory whose name only begins like the file's directory
    let alike = [entry("/project/sr/CODEOWNERS", 1, "*", "@sr")];
    assert!(owner_names("/project/src/main.rs", &alike).is_empty());
    // the pattern does not match
    let unmatched = [entry("/project/CODEOWNERS", 1, "*.py", "@py")];
    assert!(owner_names("/project/src/main.rs", &unmatched).is_empty());
}

#[test]
fn nearer_declaration_wins_whatever_the_lines() {
    for (root_line, src_line) in [(1, 1), (100, 1), (1, 100), (7, 7)] {
        let entries = [
            entry("/repo/CODEOWNERS", root_line, "*", "@a"),
            entry("/repo/src/CODEOWNERS", src_line, "*.rs", "@b"),
        ];
        assert_eq!(owner_names("/repo/src/main.rs", &entries), vec!["@b"]);
        let swapped = [
            entry("/repo/src/CODEOWNERS", src_line, "*.rs", "@b"),
            entry("/repo/CODEOWNERS", root_line, "*", "@a"),
        ];
        assert_eq!(owner_names("/repo/src/main.rs", &swapped), vec!["@b"]);
    }
}

#[test]
fn later_line_wins_in_one_declaration_file() {
    let entries = [
        entry("/repo/CODEOWNERS", 1, "*", "@general"),
        entry("/repo/CODEOWNERS", 10, "src/*.rs", "@specific"),
    ];
    assert_eq!(owner_names("/repo/src/main.rs", &entries), vec!["@specific"]);
    let swapped = [
        entry("/repo/CODEOWNERS", 10, "src/*.rs", "@specific"),
        entry("/repo/CODEOWNERS", 1, "*", "@general"),
    ];
    assert_eq!(owner_names("/repo/src/main.rs", &swapped), vec!["@specific"]);
}

#[test]
fn later_line_wins_in_the_files_own_directory() {
    let entries = [
        entry("/repo/CODEOWNERS", 1, "*", "A"),
        entry("/repo/CODEOWNERS", 5, "*.rs", "B"),
    ];
    assert_eq!(owner_names("/repo/main.rs", &entries), vec!["B"]);
}

#[test]
fn ties_go_to_the_first_path_then_to_the_first_entry() {
    let entries = [
        entry("/repo/OWNERS", 3, "*", "@owners"),
        entry("/repo/CODEOWNERS", 3, "*", "@codeowners"),
    ];
    assert_eq!(owner_names("/repo/main.rs", &entries), vec!["@codeowners"]);
    let twins = [
        entry("/repo/CODEOWNERS", 3, "*", "@first"),
        entry("/repo/CODEOWNERS", 3, "*", "@second"),
    ];
    assert_eq!(owner_names("/repo/main.rs", &twins), vec!["@first"]);
}

#[test]
fn sets_are_asked_about_the_path_as_it_is_written() {
    // the set is made for `/p`; the text `/p//a.rs` is not `/p/a.rs` to it
    let anchored = [entry("/p/CODEOWNERS", 1, "/a.rs", "@p")];
    assert_eq!(owner_names("/p/a.rs", &anchored), vec!["@p"]);
    assert!(owner_names("/p//a.rs", &anchored).is_empty());
    assert!(owner_names("/p/./a.rs", &anchored).is_empty());
    // a pattern without a slash matches the name wherever it stands
    let anywhere = [entry("/p/CODEOWNERS", 1, "a.rs", "@p")];
    assert_eq!(owner_names("/p//a.rs", &anywhere), vec!["@p"]);
    // which declaration lies above which is told by the components
    let entries = [entry("./src//CODEOWNERS", 1, "main.rs", "@src")];
    assert_eq!(owner_names("./src/main.rs", &entries), vec!["@src"]);
    assert_eq!(owner_names("./src/./sub/main.rs", &entries), vec!["@src"]);
    assert!(owner_names("./other/main.rs", &entries).is_empty());
    let relative = [entry("CODEOWNERS", 1, "docs/", "@none"), entry("CODEOWNERS", 2, "*.md", "@md")];
    assert_eq!(owner_names("docs/README.md", &relative), vec!["@md"]);
}

fn asked_directly(source: &str, pattern: &str, file: &str) -> bool {
    let source = Path::new(source);
    let file = Path::new(file);
    let (Some(dir), Some(target)) = (source.parent(), file.parent()) else {
        return false;
    };
    if !target.starts_with(dir) {
        return false;
    }
    let mut builder = OverrideBuilder::new(dir);
    if builder.add(pattern).is_err() {
        return false;
    }
    match builder.build() {
        Ok(set) => set.matched(file, false).is_whitelist(),
        Err(_) => false,
    }
}

#[test]
fn an_entry_applies_where_its_set_is_asked_directly() {
    let sources = [
        "/p/CODEOWNERS",
        "/p//CODEOWNERS",
        "/p/src/CODEOWNERS",
        "./CODEOWNERS",
        "./src/CODEOWNERS",
        "./src//CODEOWNERS",
        "src/./CODEOWNERS",
        "CODEOWNERS",
        "/CODEOWNERS",
    ];
    let patterns = ["*", "*.rs", "/a.rs", "src/*.rs", "/src/", "**/a.rs", "a.rs", "src/**", "[bad", "#x", ""];
    let files = [
        "/p/a.rs",
        "/p//a.rs",
        "/p/./a.rs",
        "/p/src/a.rs",
        "/p/src//a.rs",
        "/p/src/sub/a.rs",
        "./a.rs",
        "./src/a.rs",
        "././src/a.rs",
        ".//src/a.rs",
        "src/a.rs",
        "src//a.rs",
        "a.rs",
        "/a.rs",
        "/q/a.rs",
    ];
    for source in sources {
        for pattern in patterns {
            for file in files {
                let ours = !owner_names(file, &[entry(source, 1, pattern, "@x")]).is_empty();
                let theirs = asked_directly(source, pattern, file);
                assert_eq!(ours, theirs, "{:?} {:?} {:?}", source, pattern, file);
            }
        }
    }
}

#[test]
fn entry_to_matcher_reports_why_it_fails() {
    let no_directory = entry("/", 1, "*", "@a");
    assert_eq!(
        codeowners_entry_to_matcher(&no_directory).unwrap_err().kind,
        ErrorKind::InvalidInput
    );
    let bad_pattern = entry("/repo/CODEOWNERS", 1, "[invalid", "@a");
    assert_eq!(
        codeowners_entry_to_matcher(&bad_pattern).unwrap_err().kind,
        ErrorKind::InvalidPattern
    );
    let good = codeowners_entry_to_matcher(&entry("/repo/CODEOWNERS", 4, "*.rs", "@a")).unwrap();
    assert_eq!(good.line_number, 4);
    assert_eq!(good.pattern, "*.rs");
    assert_eq!(good.source_file, "/repo/CODEOWNERS");
    assert_eq!(good.owners.len(), 1);
}

#[test]
fn invalid_entries_are_left_out_of_the_matchers() {
    let entries = [
        entry("/repo/CODEOWNERS", 1, "[invalid", "@bad"),
        entry("/repo/CODEOWNERS", 2, "*.rs", "@rust"),
        entry("", 3, "*", "@nowhere"),
        entry("/repo/CODEOWNERS", 4, "*.md", "@docs"),
    ];
    let matchers = compile_matchers(&entries);
    let lines: Vec<usize> = matchers.iter().map(|matcher| matcher.line_number).collect();
    assert_eq!(lines, vec![2, 4]);
    assert_eq!(owner_names("/repo/a/b.rs", &entries), owner_names("/repo/a/b.rs", &entries[1..]));
    assert_eq!(owner_names("/repo/a/b.rs", &entries), vec!["@rust"]);
}

#[test]
fn a_set_made_elsewhere_is_asked_as_it_is() {
    // a matcher whose set ignores case, although its entry does not say so
    let mut builder = OverrideBuilder::new("/p");
    builder.case_insensitive(true).unwrap();
    builder.add("*.RS").unwrap();
    let loose = CodeownersEntryMatcher {
        source_file: "/p/CODEOWNERS".to_string(),
        line_number: 1,
        pattern: "*.RS".to_string(),
        owners: vec![create_owner("@loose", OwnerType::User)],
        tags: vec![],
        override_matcher: builder.build().unwrap(),
    };
    let found = find_owners_and_tags_for_file("/p/a.rs", &[loose]).unwrap();
    assert_eq!(found.0.len(), 1);
    // the set that the library compiles from the same entry keeps the case
    let strict = [entry("/p/CODEOWNERS", 1, "*.RS", "@strict")];
    assert!(owner_names("/p/a.rs", &strict).is_empty());
    assert_eq!(owner_names("/p/a.RS", &strict), vec!["@strict"]);
}

#[test]
fn lines_that_add_no_glob_match_nothing() {
    for pattern in ["", "   ", "# a comment"] {
        let entries = [entry("/p/CODEOWNERS", 1, pattern, "@nobody")];
        assert_eq!(compile_matchers(&entries).len(), 1, "{:?}", pattern);
        assert!(owner_names("/p/a.rs", &entries).is_empty(), "{:?}", pattern);
    }
    // white space at the end of a line is not part of the glob
    let entries = [entry("/p/CODEOWNERS", 1, "*.rs  ", "@rust")];
    assert_eq!(owner_names("/p/a.rs", &entries), vec!["@rust"]);
}

#[test]
fn a_root_that_opens_with_a_dot_is_the_files_own() {
    let entries = [entry("./src/CODEOWNERS", 1, "/main.rs", "@src")];
    assert_eq!(owner_names("./src/main.rs", &entries), vec!["@src"]);
    let entries = [entry("./CODEOWNERS", 1, "/src/*.rs", "@top")];
    assert_eq!(owner_names("./src/main.rs", &entries), vec!["@top"]);
    assert!(owner_names("./src/deep/main.rs", &entries).is_empty());
}

fn below(dir: &str, names: &[&str]) -> String {
    let mut path = Path::new(dir).to_path_buf();
    for name in names {
        path.push(name);
    }
    path.to_string_lossy().into_owned()
}

#[test]
fn nested_declaration_wins_in_every_directory() {
    for root in ["", "/", "/repo", "repo", "repo/", ".", "./", "./a/b", "/a//very/./deep/tree"] {
        let file = below(root, &["src", "main.rs"]);
        for (above_line, nested_line) in [(1, 1), (9, 1), (1, 9)] {
            let above = || entry(&below(root, &["CODEOWNERS"]), above_line, "*", "@a");
            let nested = || entry(&below(root, &["src", "CODEOWNERS"]), nested_line, "*.rs", "@b");
            assert_eq!(owner_names(&file, &[above(), nested()]), vec!["@b"], "{:?}", root);
            assert_eq!(owner_names(&file, &[nested(), above()]), vec!["@b"], "{:?}", root);
            // without the nested declaration the one above decides
            assert_eq!(owner_names(&file, &[above()]), vec!["@a"], "{:?}", root);
        }
    }
}
