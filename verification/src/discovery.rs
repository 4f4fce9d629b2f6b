//! From the files of a tree to its cache: which files are declaration files,
//! which are the files to resolve, and what the declaration files declare.

use crate::cache::{build_cache, indexed_cache, is_consistent, resolved_files};
use crate::matcher::compiled;
use crate::parser::{parse_codeowners, parsed_file};
use crate::paths::{components, directory, path_components};
use crate::text::{same_chars, texts};
use crate::types::{CodeownersCache, CodeownersEntry, EntryView, Error, ErrorKind};
use vstd::prelude::*;

verus! {

/// The name of a declaration file.
pub open spec fn declaration_name() -> Seq<char> {
    seq!['C', 'O', 'D', 'E', 'O', 'W', 'N', 'E', 'R', 'S']
}

/// Whether the path names a declaration file: its last component is
/// `CODEOWNERS`.
pub open spec fn is_declaration(path: Seq<char>) -> bool {
    components(path).len() > 0 && components(path).last() == declaration_name()
}

/// Whether the path names a declaration file.
pub fn is_codeowners_file(path: &str) -> (yes: bool)
    ensures
        yes == is_declaration(path@),
{
    let parts = path_components(path);
    let n = parts.len();
    if n == 0 {
        return false;
    }
    assert(texts(parts@).last() == parts@[n - 1]@);
    let mut name: Vec<char> = Vec::new();
    name.push('C');
    name.push('O');
    name.push('D');
    name.push('E');
    name.push('O');
    name.push('W');
    name.push('N');
    name.push('E');
    name.push('R');
    name.push('S');
    assert(name@ =~= declaration_name());
    same_chars(&parts[n - 1], &name)
}

/// Picks from `listing` the paths for which being a declaration file is
/// `wanted`.
fn select(listing: &[String], wanted: bool) -> (chosen: Vec<String>)
    ensures
        chosen.deep_view() == listing.deep_view().filter(
            |path: Seq<char>| is_declaration(path) == wanted,
        ),
{
    let ghost all = listing.deep_view();
    let ghost keep = |path: Seq<char>| is_declaration(path) == wanted;
    let mut chosen: Vec<String> = Vec::new();
    let n = listing.len();
    let mut i: usize = 0;
    proof {
        reveal(Seq::filter);
        assert(all.take(0) =~= Seq::<Seq<char>>::empty());
        assert(chosen.deep_view() =~= all.take(0).filter(keep));
    }
    while i < n
        invariant
            n == listing.len(),
            i <= n,
            all == listing.deep_view(),
            keep == (|path: Seq<char>| is_declaration(path) == wanted),
            chosen.deep_view() == all.take(i as int).filter(keep),
        decreases n - i,
    {
        let ghost before = chosen.deep_view();
        proof {
            assert(all.take(i + 1) =~= all.take(i as int).push(all[i as int]));
            all.take(i as int).lemma_filter_push(all[i as int], keep);
            assert(all[i as int] == listing@[i as int]@);
        }
        if is_codeowners_file(listing[i].as_str()) == wanted {
            chosen.push(listing[i].clone());
            assert(chosen.deep_view() =~= before.push(listing@[i as int]@));
        } else {
            assert(chosen.deep_view() =~= before);
        }
        i += 1;
    }
    assert(all.take(n as int) =~= all);
    chosen
}

/// The declaration files among the files of a tree, in the order of the
/// listing.
pub fn find_codeowners_files(listing: &[String]) -> (found: Vec<String>)
    ensures
        found.deep_view() == listing.deep_view().filter(
            |path: Seq<char>| is_declaration(path) == true,
        ),
{
    select(listing, true)
}

/// The files of a tree that are to be resolved: all but the declaration
/// files, in the order of the listing.
pub fn find_files(listing: &[String]) -> (found: Vec<String>)
    ensures
        found.deep_view() == listing.deep_view().filter(
            |path: Seq<char>| is_declaration(path) == false,
        ),
{
    select(listing, false)
}

/// The entries that declaration files declare, file by file; each file is
/// given as its path and its text.
pub open spec fn declared(files: Seq<(Seq<char>, Seq<char>)>) -> Seq<EntryView>
    decreases files.len(),
{
    if files.len() == 0 {
        Seq::empty()
    } else {
        declared(files.drop_last()) + parsed_file(files.last().1, files.last().0)
    }
}

/// Reads the declaration files of a tree, each given as its path and its
/// text: the entries of all of them, file by file.
pub fn parse_declarations(files: &[(String, String)]) -> (entries: Vec<CodeownersEntry>)
    ensures
        entries.deep_view() == declared(files.deep_view()),
{
    let ghost all = files.deep_view();
    let mut entries: Vec<CodeownersEntry> = Vec::new();
    let n = files.len();
    let mut i: usize = 0;
    assert(all.take(0) =~= Seq::<(Seq<char>, Seq<char>)>::empty());
    assert(entries.deep_view() =~= declared(all.take(0)));
    while i < n
        invariant
            n == files.len(),
            i <= n,
            all == files.deep_view(),
            entries.deep_view() == declared(all.take(i as int)),
        decreases n - i,
    {
        let ghost before = entries.deep_view();
        proof {
            assert(all.take(i + 1).drop_last() =~= all.take(i as int));
            assert(all.take(i + 1).last() == files@[i as int].deep_view());
        }
        let mut found = parse_codeowners(files[i].1.as_str(), files[i].0.as_str());
        let ghost added = found.deep_view();
        entries.append(&mut found);
        assert(entries.deep_view() =~= before + added);
        i += 1;
    }
    assert(all.take(n as int) =~= all);
    entries
}

/// Builds the cache of a tree from what was read of it: the declaration
/// files with their texts, the files to resolve, and the content hash.
///
/// Fails, with `InvalidInput`, exactly when some file to resolve has no
/// directory.
pub fn parse_repo(declarations: &[(String, String)], files: Vec<String>, hash: [u8; 32]) -> (built:
    Result<CodeownersCache, Error>)
    ensures
        built is Ok <==> forall|i: int|
            0 <= i < files.len() ==> directory(#[trigger] files@[i]@) is Some,
        built matches Ok(cache) ==> {
            &&& cache@ == indexed_cache(
                declared(declarations.deep_view()),
                resolved_files(files.deep_view(), compiled(declared(declarations.deep_view()))),
                hash@,
            )
            &&& is_consistent(cache@)
        },
        built matches Err(error) ==> error.kind == ErrorKind::InvalidInput && error.message@
            == "file path has no parent directory"@,
{
    let entries = parse_declarations(declarations);
    build_cache(entries, files, hash)
}

} // verus!
