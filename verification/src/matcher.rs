//! Entries with their compiled patterns.
//!
//! A pattern is compiled once, into an override set rooted at the directory
//! of the declaration file, and then asked about many files.

use crate::glob::{compile_override, glob_compiles, glob_whitelists, set_whitelists};
use crate::paths::{directory, directory_of, parent_of, parent_text};
use crate::types::{CodeownersEntry, EntryView, Error, ErrorKind, Owner, OwnerView, Tag};
use ignore::overrides::Override;
use vstd::prelude::*;

verus! {

/// An entry together with the compiled form of its pattern.
#[derive(Debug)]
pub struct CodeownersEntryMatcher {
    pub source_file: String,
    pub line_number: usize,
    pub pattern: String,
    pub owners: Vec<Owner>,
    pub tags: Vec<Tag>,
    pub override_matcher: Override,
}

/// What a [`CodeownersEntryMatcher`] is, as plain values: the entry, and the
/// paths that its override set whitelists. The set is taken as it is: whether
/// it was made from the pattern of the entry is not asked.
pub struct MatcherView {
    pub source_file: Seq<char>,
    pub line_number: nat,
    pub pattern: Seq<char>,
    pub owners: Seq<OwnerView>,
    pub tags: Seq<Seq<char>>,
    pub matched: Set<Seq<char>>,
}

impl View for CodeownersEntryMatcher {
    type V = MatcherView;

    open spec fn view(&self) -> MatcherView {
        MatcherView {
            source_file: self.source_file@,
            line_number: self.line_number as nat,
            pattern: self.pattern@,
            owners: self.owners.deep_view(),
            tags: self.tags.deep_view(),
            matched: Set::new(|path: Seq<char>| set_whitelists(self.override_matcher, path)),
        }
    }
}

impl DeepView for CodeownersEntryMatcher {
    type V = MatcherView;

    open spec fn deep_view(&self) -> MatcherView {
        self@
    }
}

/// Whether an entry can be given a matcher: its declaration file lies in a
/// directory and its pattern compiles.
pub open spec fn is_usable(entry: EntryView) -> bool {
    directory(entry.source_file) is Some && glob_compiles(entry.pattern)
}

/// The matcher of a usable entry: it whitelists what the set made for the
/// directory of the declaration file from the entry's pattern whitelists.
/// The directory is handed to the set as it stands in the text of the
/// declaration file's path.
pub open spec fn matcher_of(entry: EntryView) -> MatcherView {
    MatcherView {
        source_file: entry.source_file,
        line_number: entry.line_number,
        pattern: entry.pattern,
        owners: entry.owners,
        tags: entry.tags,
        matched: Set::new(
            |path: Seq<char>|
                glob_whitelists(parent_text(entry.source_file), entry.pattern, path),
        ),
    }
}

/// The matchers of the usable entries among `entries`, in their order.
pub open spec fn compiled(entries: Seq<EntryView>) -> Seq<MatcherView> {
    entries.filter(|entry: EntryView| is_usable(entry)).map_values(
        |entry: EntryView| matcher_of(entry),
    )
}

/// Compiles the pattern of an entry.
///
/// Fails with `InvalidInput` where the declaration file has no directory, and
/// with `InvalidPattern` where the pattern does not compile.
pub fn codeowners_entry_to_matcher(entry: &CodeownersEntry) -> (made: Result<
    CodeownersEntryMatcher,
    Error,
>)
    ensures
        made is Ok <==> is_usable(entry@),
        made matches Ok(matcher) ==> matcher@ == matcher_of(entry@),
        made matches Err(error) ==> if directory(entry@.source_file) is None {
            error.kind == ErrorKind::InvalidInput && error.message@
                == "declaration file has no parent directory"@
        } else {
            error.kind == ErrorKind::InvalidPattern && error.message@ == "pattern does not compile"@
        },
{
    if directory_of(entry.source_file.as_str()).is_none() {
        return Err(
            Error::new(ErrorKind::InvalidInput, "declaration file has no parent directory"),
        );
    }
    let root = parent_of(entry.source_file.as_str());
    match compile_override(root.as_str(), entry.pattern.as_str()) {
        Some(set) => {
            let owners = entry.owners.clone();
            let tags = entry.tags.clone();
            assert(owners.deep_view() =~= entry.owners.deep_view());
            assert(tags.deep_view() =~= entry.tags.deep_view());
            assert(Set::new(|path: Seq<char>| set_whitelists(set, path)) =~= matcher_of(
                entry@,
            ).matched);
            Ok(
                CodeownersEntryMatcher {
                    source_file: entry.source_file.clone(),
                    line_number: entry.line_number,
                    pattern: entry.pattern.clone(),
                    owners,
                    tags,
                    override_matcher: set,
                },
            )
        },
        None => Err(Error::new(ErrorKind::InvalidPattern, "pattern does not compile")),
    }
}

/// Compiles the patterns of all entries once. Entries that cannot be given a
/// matcher are left out; the others keep their order.
pub fn compile_matchers(entries: &[CodeownersEntry]) -> (matchers: Vec<CodeownersEntryMatcher>)
    ensures
        matchers.deep_view() == compiled(entries.deep_view()),
{
    let ghost usable = |entry: EntryView| is_usable(entry);
    let ghost make = |entry: EntryView| matcher_of(entry);
    let ghost all = entries.deep_view();
    let mut matchers: Vec<CodeownersEntryMatcher> = Vec::new();
    let n = entries.len();
    let mut i: usize = 0;
    proof {
        reveal(Seq::filter);
        assert(all.take(0) =~= Seq::<EntryView>::empty());
        assert(matchers.deep_view() =~= all.take(0).filter(usable).map_values(make));
    }
    while i < n
        invariant
            n == entries.len(),
            i <= n,
            all == entries.deep_view(),
            usable == (|entry: EntryView| is_usable(entry)),
            make == (|entry: EntryView| matcher_of(entry)),
            matchers.deep_view() == all.take(i as int).filter(usable).map_values(make),
        decreases n - i,
    {
        let ghost before = matchers.deep_view();
        proof {
            assert(all.take(i + 1) =~= all.take(i as int).push(all[i as int]));
            all.take(i as int).lemma_filter_push(all[i as int], usable);
            assert(all[i as int] == entries@[i as int]@);
        }
        match codeowners_entry_to_matcher(&entries[i]) {
            Ok(matcher) => {
                matchers.push(matcher);
                proof {
                    let kept = all.take(i as int).filter(usable);
                    assert(matchers.deep_view() =~= before.push(matcher@));
                    assert(kept.push(all[i as int]).map_values(make) =~= kept.map_values(
                        make,
                    ).push(make(all[i as int])));
                }
            },
            Err(_) => {
                assert(matchers.deep_view() =~= before);
            },
        }
        i += 1;
    }
    assert(all.take(n as int) =~= all);
    matchers
}

/// An entry whose pattern does not compile is as good as absent: the
/// compiled entries are those of the list without it.
pub proof fn lemma_invalid_pattern_is_isolated(entries: Seq<EntryView>, index: int)
    requires
        0 <= index < entries.len(),
    ensures
        !glob_compiles(entries[index].pattern) ==> compiled(entries) == compiled(
            entries.remove(index),
        ),
{
    if !glob_compiles(entries[index].pattern) {
        let usable = |entry: EntryView| is_usable(entry);
        let front = entries.take(index);
        let one = seq![entries[index]];
        let back = entries.skip(index + 1);
        assert(entries =~= front + one + back);
        assert(entries.remove(index) =~= front + back);
        Seq::filter_distributes_over_add(front + one, back, usable);
        Seq::filter_distributes_over_add(front, one, usable);
        Seq::filter_distributes_over_add(front, back, usable);
        assert(one.filter(usable) =~= Seq::<EntryView>::empty()) by {
            let none = Seq::<EntryView>::empty();
            reveal(Seq::filter);
            none.lemma_filter_push(entries[index], usable);
            assert(one =~= none.push(entries[index]));
        }
        assert(entries.filter(usable) =~= entries.remove(index).filter(usable));
    }
}

} // verus!
