use std::path::Path;

use codeinput::paths::{
    chars_before, directory_of, parent_of, path_before, path_components, rank_of,
};

const SAMPLES: [&str; 42] = [
    "",
    "/",
    "//",
    ".",
    "./",
    "..",
    "../",
    "/.",
    "/..",
    "a",
    "a/",
    "a/b",
    "/a/b",
    "a//b",
    "a/./b",
    "./a/b",
    ".//a",
    "a/b/.",
    "a/b/..",
    "/a/../b",
    "../../x.rs",
    ".hidden/file",
    "..dots/...",
    "/project/src/main.rs",
    "/project/src/CODEOWNERS",
    "./src/CODEOWNERS",
    "src/api/mod.rs",
    "web/index.html",
    "a/b c/d\u{e9}",
    "-/!",
    "/a//b/c.rs",
    "/a/b//",
    "a/.//./b/./",
    "./a/./b",
    ".//",
    "./.",
    "/./a",
    "//a",
    "/a/./",
    "x/../..",
    "./..",
    "\u{e9}/\u{1D11E}//",
];

fn texts(parts: &[Vec<char>]) -> Vec<String> {
    parts.iter().map(|part| part.iter().collect()).collect()
}

fn std_components(path: &str) -> Vec<String> {
    Path::new(path)
        .components()
        .map(|part| part.as_os_str().to_string_lossy().into_owned())
        .collect()
}

#[test]
fn components_are_those_of_the_platform() {
    for sample in SAMPLES {
        assert_eq!(texts(&path_components(sample)), std_components(sample), "{:?}", sample);
    }
}

#[test]
fn directories_are_the_parents_of_the_platform() {
    for sample in SAMPLES {
        let ours = directory_of(sample).map(|parts| texts(&parts));
        let theirs = Path::new(sample)
            .parent()
            .map(|parent| std_components(&parent.to_string_lossy()));
        assert_eq!(ours, theirs, "{:?}", sample);
    }
}

#[test]
fn parent_texts_are_those_of_the_platform() {
    for sample in SAMPLES {
        if let Some(parent) = Path::new(sample).parent() {
            assert_eq!(parent_of(sample), parent.to_string_lossy(), "{:?}", sample);
            // the text of the directory has the components of the directory
            let parts = directory_of(sample).unwrap();
            assert_eq!(texts(&path_components(&parent_of(sample))), texts(&parts), "{:?}", sample);
        } else {
            assert!(directory_of(sample).is_none(), "{:?}", sample);
        }
    }
}

#[test]
fn order_is_the_order_of_the_platform() {
    for a in SAMPLES {
        for b in SAMPLES {
            let ours = path_before(&path_components(a), &path_components(b));
            let theirs = Path::new(a) < Path::new(b);
            assert_eq!(ours, theirs, "{:?} before {:?}", a, b);
        }
    }
}

#[test]
fn texts_are_ordered_by_their_characters() {
    let chars = |text: &str| text.chars().collect::<Vec<char>>();
    for (a, b) in [("", "a"), ("a", "b"), ("a", "ab"), ("B", "a"), ("a\u{e9}", "a\u{ea}"), ("z", "\u{e9}")] {
        assert!(chars_before(&chars(a), &chars(b)));
        assert!(!chars_before(&chars(b), &chars(a)));
        assert!(!chars_before(&chars(a), &chars(a)));
        assert_eq!(chars_before(&chars(a), &chars(b)), a < b);
    }
    assert_eq!(rank_of(&chars("/")), 0);
    assert_eq!(rank_of(&chars(".")), 1);
    assert_eq!(rank_of(&chars("..")), 2);
    assert_eq!(rank_of(&chars("...")), 3);
    assert_eq!(rank_of(&chars("name")), 3);
}
