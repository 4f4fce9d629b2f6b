//! The ownership cache: how it is built, and when a stored one is still
//! valid.

use crate::lookup::{
    collect_owners, collect_tags, entry_for, files_for_owner, files_for_tag, find_files_for_owner,
    find_files_for_tag, first_occurrences, lemma_entry_for_own_key, lemma_first_occurrences,
    lemma_named_hold_those_of_each_entry, named_owners, named_tags,
};
use crate::matcher::{
    compile_matchers, compiled, is_usable, matcher_of, CodeownersEntryMatcher, MatcherView,
};
use crate::paths::{components, directory};
use crate::resolver::{
    lemma_winner_exists, resolve_with_sources, resolved_owners, resolved_tags, source_parts, winner,
};
use crate::text::texts;
use crate::types::{
    CacheView, CodeownersCache, CodeownersEntry, EntryView, Error, ErrorKind, FileEntry, FileView,
    Owner, OwnerView, Tag,
};
use vstd::prelude::*;

verus! {

/// The resolved record of the file `path` under the compiled entries.
pub open spec fn resolved_file(path: Seq<char>, matchers: Seq<MatcherView>) -> FileView {
    FileView {
        path,
        owners: resolved_owners(path, matchers),
        tags: resolved_tags(path, matchers),
    }
}

/// The resolved records of `paths`, in their order.
pub open spec fn resolved_files(paths: Seq<Seq<char>>, matchers: Seq<MatcherView>) -> Seq<FileView> {
    paths.map_values(|path: Seq<char>| resolved_file(path, matchers))
}

/// The index of the given owners over `files`: each owner with the paths of
/// the files that it owns.
pub open spec fn owner_index(files: Seq<FileView>, owners: Seq<OwnerView>) -> Seq<
    (OwnerView, Seq<Seq<char>>),
> {
    owners.map_values(|owner: OwnerView| (owner, files_for_owner(files, owner)))
}

/// The index of the given tags over `files`: each tag with the paths of the
/// files that carry it.
pub open spec fn tag_index(files: Seq<FileView>, tags: Seq<Seq<char>>) -> Seq<
    (Seq<char>, Seq<Seq<char>>),
> {
    tags.map_values(|tag: Seq<char>| (tag, files_for_tag(files, tag)))
}

/// The cache of the given entries and resolved files: its indexes list the
/// owners and tags that the entries name, each once.
pub open spec fn indexed_cache(
    entries: Seq<EntryView>,
    files: Seq<FileView>,
    hash: Seq<u8>,
) -> CacheView {
    CacheView {
        hash,
        entries,
        files,
        owners_map: owner_index(files, first_occurrences(named_owners(entries))),
        tags_map: tag_index(files, first_occurrences(named_tags(entries))),
    }
}

/// Whether an owners index agrees with the files: no owner stands twice, and
/// each has exactly the paths of its files, in the order of the files.
pub open spec fn owners_index_agrees(
    files: Seq<FileView>,
    index: Seq<(OwnerView, Seq<Seq<char>>)>,
) -> bool {
    &&& forall|i: int, j: int| 0 <= i < j < index.len() ==> index[i].0 != index[j].0
    &&& forall|i: int|
        0 <= i < index.len() ==> (#[trigger] index[i]).1 == files_for_owner(files, index[i].0)
}

/// Whether a tags index agrees with the files: no tag stands twice, and each
/// has exactly the paths of its files, in the order of the files.
pub open spec fn tags_index_agrees(
    files: Seq<FileView>,
    index: Seq<(Seq<char>, Seq<Seq<char>>)>,
) -> bool {
    &&& forall|i: int, j: int| 0 <= i < j < index.len() ==> index[i].0 != index[j].0
    &&& forall|i: int|
        0 <= i < index.len() ==> (#[trigger] index[i]).1 == files_for_tag(files, index[i].0)
}

/// Whether the indexes of a cache agree with its files.
pub open spec fn is_consistent(cache: CacheView) -> bool {
    owners_index_agrees(cache.files, cache.owners_map) && tags_index_agrees(
        cache.files,
        cache.tags_map,
    )
}

/// Resolves every file against the compiled entries, in the order of `files`.
///
/// Fails, with `InvalidInput`, exactly when some file has no directory.
pub fn resolve_files(matchers: &[CodeownersEntryMatcher], files: &[String]) -> (resolved: Result<
    Vec<FileEntry>,
    Error,
>)
    ensures
        resolved is Ok <==> forall|i: int|
            0 <= i < files.len() ==> directory(#[trigger] files@[i]@) is Some,
        resolved matches Ok(list) ==> list.deep_view() == resolved_files(
            files.deep_view(),
            matchers.deep_view(),
        ),
        resolved matches Err(error) ==> error.kind == ErrorKind::InvalidInput && error.message@
            == "file path has no parent directory"@,
{
    let ghost paths = files.deep_view();
    let ghost all = matchers.deep_view();
    let sources = source_parts(matchers);
    let mut list: Vec<FileEntry> = Vec::new();
    let n = files.len();
    let mut i: usize = 0;
    while i < n
        invariant
            n == files.len(),
            i <= n,
            paths == files.deep_view(),
            all == matchers.deep_view(),
            sources.len() == matchers.len(),
            forall|j: int|
                0 <= j < matchers.len() ==> texts(#[trigger] sources@[j]@) == components(
                    matchers@[j].source_file@,
                ),
            forall|j: int| 0 <= j < i ==> directory(#[trigger] files@[j]@) is Some,
            list.len() == i,
            forall|j: int| 0 <= j < i ==> (#[trigger] list@[j])@ == resolved_file(paths[j], all),
        decreases n - i,
    {
        let path = &files[i];
        assert(paths[i as int] == path@);
        match resolve_with_sources(path.as_str(), matchers, &sources) {
            Ok(pair) => {
                list.push(FileEntry { path: path.clone(), owners: pair.0, tags: pair.1 });
            },
            Err(error) => {
                return Err(error);
            },
        }
        i += 1;
    }
    assert(list.deep_view() =~= resolved_files(paths, all));
    Ok(list)
}

/// The index of `owners` over `files`.
fn index_owners(files: &Vec<FileEntry>, owners: Vec<Owner>) -> (index: Vec<(Owner, Vec<String>)>)
    ensures
        index.deep_view() == owner_index(files.deep_view(), owners.deep_view()),
{
    let mut index: Vec<(Owner, Vec<String>)> = Vec::new();
    let n = owners.len();
    let mut i: usize = 0;
    while i < n
        invariant
            n == owners.len(),
            i <= n,
            index.len() == i,
            forall|j: int|
                0 <= j < i ==> (#[trigger] index@[j]).deep_view() == (
                    owners@[j]@,
                    files_for_owner(files.deep_view(), owners@[j]@),
                ),
        decreases n - i,
    {
        let paths = find_files_for_owner(files.as_slice(), &owners[i]);
        index.push((owners[i].clone(), paths));
        i += 1;
    }
    assert(index.deep_view() =~= owner_index(files.deep_view(), owners.deep_view()));
    index
}

/// The index of `tags` over `files`.
fn index_tags(files: &Vec<FileEntry>, tags: Vec<Tag>) -> (index: Vec<(Tag, Vec<String>)>)
    ensures
        index.deep_view() == tag_index(files.deep_view(), tags.deep_view()),
{
    let mut index: Vec<(Tag, Vec<String>)> = Vec::new();
    let n = tags.len();
    let mut i: usize = 0;
    while i < n
        invariant
            n == tags.len(),
            i <= n,
            index.len() == i,
            forall|j: int|
                0 <= j < i ==> (#[trigger] index@[j]).deep_view() == (
                    tags@[j]@,
                    files_for_tag(files.deep_view(), tags@[j]@),
                ),
        decreases n - i,
    {
        let paths = find_files_for_tag(files.as_slice(), &tags[i]);
        index.push((tags[i].clone(), paths));
        i += 1;
    }
    assert(index.deep_view() =~= tag_index(files.deep_view(), tags.deep_view()));
    index
}

/// Puts a cache together from the entries and the resolved files: derives the
/// two indexes and stamps the cache with `hash`.
pub fn assemble_cache(entries: Vec<CodeownersEntry>, files: Vec<FileEntry>, hash: [u8; 32]) -> (cache:
    CodeownersCache)
    ensures
        cache@ == indexed_cache(entries.deep_view(), files.deep_view(), hash@),
        is_consistent(cache@),
{
    let owners = collect_owners(entries.as_slice());
    let tags = collect_tags(entries.as_slice());
    let owners_map = index_owners(&files, owners);
    let tags_map = index_tags(&files, tags);
    proof {
        lemma_indexed_cache_is_consistent(entries.deep_view(), files.deep_view(), hash@);
    }
    CodeownersCache { hash, entries, files, owners_map, tags_map }
}

/// Builds the cache of a tree: compiles each pattern once, resolves every
/// file, derives the indexes, and stamps the result with `hash`.
///
/// Fails, with `InvalidInput`, exactly when some file has no directory.
pub fn build_cache(entries: Vec<CodeownersEntry>, files: Vec<String>, hash: [u8; 32]) -> (built:
    Result<CodeownersCache, Error>)
    ensures
        built is Ok <==> forall|i: int|
            0 <= i < files.len() ==> directory(#[trigger] files@[i]@) is Some,
        built matches Ok(cache) ==> {
            &&& cache@ == indexed_cache(
                entries.deep_view(),
                resolved_files(files.deep_view(), compiled(entries.deep_view())),
                hash@,
            )
            &&& is_consistent(cache@)
        },
        built matches Err(error) ==> error.kind == ErrorKind::InvalidInput && error.message@
            == "file path has no parent directory"@,
{
    let matchers = compile_matchers(entries.as_slice());
    match resolve_files(matchers.as_slice(), files.as_slice()) {
        Ok(list) => Ok(assemble_cache(entries, list, hash)),
        Err(error) => Err(error),
    }
}

/// Files may be resolved in chunks: resolving two lists one after the other
/// gives what resolving them as one list gives. So a cache that is put
/// together from the records of the chunks, in their order, is the cache that
/// `build_cache` makes of the whole list.
pub proof fn lemma_resolved_files_of_chunks(
    first: Seq<Seq<char>>,
    second: Seq<Seq<char>>,
    matchers: Seq<MatcherView>,
)
    ensures
        resolved_files(first + second, matchers) == resolved_files(first, matchers)
            + resolved_files(second, matchers),
{
    assert(resolved_files(first + second, matchers) =~= resolved_files(first, matchers)
        + resolved_files(second, matchers));
}

/// The indexes of an indexed cache agree with its files.
pub proof fn lemma_indexed_cache_is_consistent(
    entries: Seq<EntryView>,
    files: Seq<FileView>,
    hash: Seq<u8>,
)
    ensures
        is_consistent(indexed_cache(entries, files, hash)),
{
    lemma_first_occurrences(named_owners(entries));
    lemma_first_occurrences(named_tags(entries));
}

/// The indexes of a built cache leave out no owner and no tag of its files:
/// whoever owns a file is a key of the owners index, and every tag of a file
/// is a key of the tags index.
pub proof fn lemma_owners_and_tags_of_files_are_keys(
    entries: Seq<EntryView>,
    paths: Seq<Seq<char>>,
    hash: Seq<u8>,
    file: int,
)
    requires
        0 <= file < paths.len(),
    ensures
        ({
            let cache = indexed_cache(entries, resolved_files(paths, compiled(entries)), hash);
            &&& forall|owner: OwnerView|
                cache.files[file].owners.contains(owner) ==> exists|key: int|
                    0 <= key < cache.owners_map.len() && (#[trigger] cache.owners_map[key]).0
                        == owner
            &&& forall|tag: Seq<char>|
                cache.files[file].tags.contains(tag) ==> exists|key: int|
                    0 <= key < cache.tags_map.len() && (#[trigger] cache.tags_map[key]).0 == tag
        }),
{
    let matchers = compiled(entries);
    let cache = indexed_cache(entries, resolved_files(paths, matchers), hash);
    let usable = |entry: EntryView| is_usable(entry);
    let kept = entries.filter(usable);
    lemma_winner_exists(paths[file], matchers);
    lemma_first_occurrences(named_owners(entries));
    lemma_first_occurrences(named_tags(entries));
    if winner(paths[file], matchers) is Some {
        let index = winner(paths[file], matchers)->0;
        assert(matchers[index] == matcher_of(kept[index]));
        entries.lemma_filter_contains_rev(usable, kept[index]);
        assert(kept.contains(kept[index]));
        let place = choose|place: int| 0 <= place < entries.len() && entries[place] == kept[index];
        lemma_named_hold_those_of_each_entry(entries, place);
        assert forall|owner: OwnerView| cache.files[file].owners.contains(owner) implies exists|
            key: int,
        |
            0 <= key < cache.owners_map.len() && (#[trigger] cache.owners_map[key]).0 == owner by {
            let keys = first_occurrences(named_owners(entries));
            assert(cache.files[file] == resolved_file(paths[file], matchers));
            assert(entries[place].owners.contains(owner));
            assert(named_owners(entries).contains(owner));
            assert(keys.contains(owner));
            let key = choose|key: int| 0 <= key < keys.len() && keys[key] == owner;
            assert(cache.owners_map[key].0 == owner);
        }
        assert forall|tag: Seq<char>| cache.files[file].tags.contains(tag) implies exists|key: int|
            0 <= key < cache.tags_map.len() && (#[trigger] cache.tags_map[key]).0 == tag by {
            let keys = first_occurrences(named_tags(entries));
            assert(cache.files[file] == resolved_file(paths[file], matchers));
            assert(entries[place].tags.contains(tag));
            assert(named_tags(entries).contains(tag));
            assert(keys.contains(tag));
            let key = choose|key: int| 0 <= key < keys.len() && keys[key] == tag;
            assert(cache.tags_map[key].0 == tag);
        }
    }
}

/// An index of a consistent cache lists exactly the files of its key: a path
/// stands in the list of an owner if and only if it is the path of a file
/// that has the owner among its owners; and so for the tags.
pub proof fn lemma_index_lists_exactly_the_files(cache: CacheView, key: int, path: Seq<char>)
    requires
        is_consistent(cache),
    ensures
        0 <= key < cache.owners_map.len() ==> (cache.owners_map[key].1.contains(path) <==> exists|
            i: int,
        |
            0 <= i < cache.files.len() && (#[trigger] cache.files[i]).path == path
                && cache.files[i].owners.contains(cache.owners_map[key].0)),
        0 <= key < cache.tags_map.len() ==> (cache.tags_map[key].1.contains(path) <==> exists|
            i: int,
        |
            0 <= i < cache.files.len() && (#[trigger] cache.files[i]).path == path
                && cache.files[i].tags.contains(cache.tags_map[key].0)),
{
    if 0 <= key < cache.owners_map.len() {
        let owner = cache.owners_map[key].0;
        lemma_selected_paths(cache.files, |file: FileView| file.owners.contains(owner), path);
    }
    if 0 <= key < cache.tags_map.len() {
        let tag = cache.tags_map[key].0;
        lemma_selected_paths(cache.files, |file: FileView| file.tags.contains(tag), path);
    }
}

/// The paths of the selected files are the paths of the files that the
/// selection holds of.
proof fn lemma_selected_paths(files: Seq<FileView>, selected: spec_fn(FileView) -> bool, path: Seq<char>)
    ensures
        files.filter(selected).map_values(|file: FileView| file.path).contains(path) <==> exists|
            i: int,
        |
            0 <= i < files.len() && (#[trigger] files[i]).path == path && selected(files[i]),
{
    let kept = files.filter(selected);
    let paths = kept.map_values(|file: FileView| file.path);
    if paths.contains(path) {
        let k = choose|k: int| 0 <= k < paths.len() && paths[k] == path;
        assert(kept[k].path == path);
        files.lemma_filter_pred(selected, k);
        files.lemma_filter_contains_rev(selected, kept[k]);
        assert(kept.contains(kept[k]));
        let i = choose|i: int| 0 <= i < files.len() && files[i] == kept[k];
        assert(files[i].path == path && selected(files[i]));
    }
    if exists|i: int| 0 <= i < files.len() && (#[trigger] files[i]).path == path && selected(files[i]) {
        let i = choose|i: int|
            0 <= i < files.len() && (#[trigger] files[i]).path == path && selected(files[i]);
        files.lemma_filter_contains(selected, i);
        let k = choose|k: int| 0 <= k < kept.len() && kept[k] == files[i];
        assert(paths[k] == path);
    }
}

/// Looking an owner or a tag up in a consistent cache finds the paths of
/// exactly its files.
pub proof fn lemma_lookup_finds_the_files(cache: CacheView, key: int)
    requires
        is_consistent(cache),
    ensures
        0 <= key < cache.owners_map.len() ==> entry_for(cache.owners_map, cache.owners_map[key].0)
            == Some(files_for_owner(cache.files, cache.owners_map[key].0)),
        0 <= key < cache.tags_map.len() ==> entry_for(cache.tags_map, cache.tags_map[key].0)
            == Some(files_for_tag(cache.files, cache.tags_map[key].0)),
{
    if 0 <= key < cache.owners_map.len() {
        lemma_entry_for_own_key(cache.owners_map, key);
    }
    if 0 <= key < cache.tags_map.len() {
        lemma_entry_for_own_key(cache.tags_map, key);
    }
}

/// Whether two lists of paths are the same.
fn same_paths(a: &Vec<String>, b: &Vec<String>) -> (same: bool)
    ensures
        same == (a.deep_view() == b.deep_view()),
{
    if a.len() != b.len() {
        assert(a.deep_view().len() != b.deep_view().len());
        return false;
    }
    let mut i: usize = 0;
    while i < a.len()
        invariant
            i <= a.len(),
            a.len() == b.len(),
            forall|j: int| 0 <= j < i ==> a.deep_view()[j] == b.deep_view()[j],
        decreases a.len() - i,
    {
        if a[i] != b[i] {
            assert(a.deep_view()[i as int] != b.deep_view()[i as int]);
            return false;
        }
        i += 1;
    }
    assert(a.deep_view() =~= b.deep_view());
    true
}

/// Whether the owners index agrees with the files.
fn owners_agree(files: &Vec<FileEntry>, index: &Vec<(Owner, Vec<String>)>) -> (agree: bool)
    ensures
        agree == owners_index_agrees(files.deep_view(), index.deep_view()),
{
    let ghost all = index.deep_view();
    let n = index.len();
    let mut i: usize = 0;
    while i < n
        invariant
            n == index.len(),
            i <= n,
            all == index.deep_view(),
            forall|a: int, b: int| 0 <= a < b < i ==> all[a].0 != all[b].0,
            forall|a: int|
                0 <= a < i ==> (#[trigger] all[a]).1 == files_for_owner(files.deep_view(), all[a].0),
        decreases n - i,
    {
        assert(all[i as int] == index@[i as int].deep_view());
        let mut k: usize = 0;
        while k < i
            invariant
                n == index.len(),
                i < n,
                k <= i,
                all == index.deep_view(),
                forall|a: int| 0 <= a < k ==> all[a].0 != all[i as int].0,
            decreases i - k,
        {
            assert(all[k as int] == index@[k as int].deep_view());
            if index[k].0 == index[i].0 {
                assert(all[k as int].0 == all[i as int].0);
                return false;
            }
            k += 1;
        }
        let paths = find_files_for_owner(files.as_slice(), &index[i].0);
        if !same_paths(&paths, &index[i].1) {
            assert(all[i as int].1 != files_for_owner(files.deep_view(), all[i as int].0));
            return false;
        }
        i += 1;
    }
    true
}

/// Whether the tags index agrees with the files.
fn tags_agree(files: &Vec<FileEntry>, index: &Vec<(Tag, Vec<String>)>) -> (agree: bool)
    ensures
        agree == tags_index_agrees(files.deep_view(), index.deep_view()),
{
    let ghost all = index.deep_view();
    let n = index.len();
    let mut i: usize = 0;
    while i < n
        invariant
            n == index.len(),
            i <= n,
            all == index.deep_view(),
            forall|a: int, b: int| 0 <= a < b < i ==> all[a].0 != all[b].0,
            forall|a: int|
                0 <= a < i ==> (#[trigger] all[a]).1 == files_for_tag(files.deep_view(), all[a].0),
        decreases n - i,
    {
        assert(all[i as int] == index@[i as int].deep_view());
        let mut k: usize = 0;
        while k < i
            invariant
                n == index.len(),
                i < n,
                k <= i,
                all == index.deep_view(),
                forall|a: int| 0 <= a < k ==> all[a].0 != all[i as int].0,
            decreases i - k,
        {
            assert(all[k as int] == index@[k as int].deep_view());
            if index[k].0 == index[i].0 {
                assert(all[k as int].0 == all[i as int].0);
                return false;
            }
            k += 1;
        }
        let paths = find_files_for_tag(files.as_slice(), &index[i].0);
        if !same_paths(&paths, &index[i].1) {
            assert(all[i as int].1 != files_for_tag(files.deep_view(), all[i as int].0));
            return false;
        }
        i += 1;
    }
    true
}

/// Checks the indexes of a cache against its files by deriving them anew. A
/// cache that fails the check was not made by `build_cache`, or was changed
/// since.
pub fn is_cache_consistent(cache: &CodeownersCache) -> (consistent: bool)
    ensures
        consistent == is_consistent(cache@),
{
    owners_agree(&cache.files, &cache.owners_map) && tags_agree(&cache.files, &cache.tags_map)
}

/// What was found at the place of the stored cache.
#[derive(Debug)]
pub enum StoredCache {
    /// No cache file.
    Missing,
    /// A file that could not be read or decoded.
    Unreadable,
    /// A cache that was loaded whole.
    Loaded(CodeownersCache),
}

/// What is to be done about the cache.
#[derive(Debug)]
pub enum SyncDecision {
    /// The stored cache is valid: it is handed back as it was loaded.
    Fresh(CodeownersCache),
    /// The cache has to be built anew.
    Rebuild,
}

/// The decision for a stored cache and the current content hash of the tree:
/// a loaded cache with that very hash is fresh; everything else is rebuilt.
pub open spec fn sync_decision(stored: StoredCache, current_hash: Seq<u8>) -> SyncDecision {
    match stored {
        StoredCache::Loaded(cache) => if cache.hash@ == current_hash {
            SyncDecision::Fresh(cache)
        } else {
            SyncDecision::Rebuild
        },
        _ => SyncDecision::Rebuild,
    }
}

/// The cache that a synchronisation ends with, where a rebuild yields
/// `rebuilt`.
pub open spec fn synced(
    stored: StoredCache,
    current_hash: Seq<u8>,
    rebuilt: CodeownersCache,
) -> CodeownersCache {
    match sync_decision(stored, current_hash) {
        SyncDecision::Fresh(cache) => cache,
        SyncDecision::Rebuild => rebuilt,
    }
}

/// Whether two hashes are the same.
pub fn same_hash(a: &[u8; 32], b: &[u8; 32]) -> (same: bool)
    ensures
        same == (a@ == b@),
{
    let mut i: usize = 0;
    while i < 32
        invariant
            i <= 32,
            forall|j: int| 0 <= j < i ==> a@[j] == b@[j],
        decreases 32 - i,
    {
        if a[i] != b[i] {
            return false;
        }
        i += 1;
    }
    assert(a@ =~= b@);
    true
}

/// Decides whether the stored cache is still valid for a tree whose content
/// hash is `current_hash`. A missing or unreadable cache is never an error:
/// it is rebuilt, as a stale one is.
pub fn sync_cache(stored: StoredCache, current_hash: &[u8; 32]) -> (decision: SyncDecision)
    ensures
        decision == sync_decision(stored, current_hash@),
{
    match stored {
        StoredCache::Loaded(cache) => {
            if same_hash(&cache.hash, current_hash) {
                SyncDecision::Fresh(cache)
            } else {
                SyncDecision::Rebuild
            }
        },
        _ => SyncDecision::Rebuild,
    }
}

/// Synchronising twice without a change in between rebuilds at most once:
/// whatever the first run found, the cache that it ends with carries the
/// current hash, and a second run that loads this cache under the same hash
/// hands back that very cache and asks for no rebuild.
pub proof fn lemma_sync_is_idempotent(
    stored: StoredCache,
    current_hash: Seq<u8>,
    rebuilt: CodeownersCache,
)
    requires
        rebuilt.hash@ == current_hash,
    ensures
        synced(stored, current_hash, rebuilt).hash@ == current_hash,
        sync_decision(
            StoredCache::Loaded(synced(stored, current_hash, rebuilt)),
            current_hash,
        ) == SyncDecision::Fresh(synced(stored, current_hash, rebuilt)),
{
}

} // verus!
