//! Reverse lookups: the files of an owner or a tag, and the owners and tags
//! that a set of entries names.

use crate::types::{CodeownersEntry, EntryView, FileEntry, FileView, Owner, OwnerView, Tag};
use vstd::prelude::*;

verus! {

/// The paths of the files that have `owner` among their owners, in the order
/// of `files`.
pub open spec fn files_for_owner(files: Seq<FileView>, owner: OwnerView) -> Seq<Seq<char>> {
    files.filter(|file: FileView| file.owners.contains(owner)).map_values(
        |file: FileView| file.path,
    )
}

/// The paths of the files that have `tag` among their tags, in the order of
/// `files`.
pub open spec fn files_for_tag(files: Seq<FileView>, tag: Seq<char>) -> Seq<Seq<char>> {
    files.filter(|file: FileView| file.tags.contains(tag)).map_values(|file: FileView| file.path)
}

/// The elements of `items` without repetitions: each stands where it first
/// occurs.
pub open spec fn first_occurrences<T>(items: Seq<T>) -> Seq<T>
    decreases items.len(),
{
    if items.len() == 0 {
        Seq::empty()
    } else {
        let before = first_occurrences(items.drop_last());
        if before.contains(items.last()) {
            before
        } else {
            before.push(items.last())
        }
    }
}

/// The owners that the entries name, entry by entry, repetitions included.
pub open spec fn named_owners(entries: Seq<EntryView>) -> Seq<OwnerView>
    decreases entries.len(),
{
    if entries.len() == 0 {
        Seq::empty()
    } else {
        named_owners(entries.drop_last()) + entries.last().owners
    }
}

/// The tags that the entries name, entry by entry, repetitions included.
pub open spec fn named_tags(entries: Seq<EntryView>) -> Seq<Seq<char>>
    decreases entries.len(),
{
    if entries.len() == 0 {
        Seq::empty()
    } else {
        named_tags(entries.drop_last()) + entries.last().tags
    }
}

/// `first_occurrences` keeps exactly the elements of the sequence, each once.
pub proof fn lemma_first_occurrences<T>(items: Seq<T>)
    ensures
        first_occurrences(items).no_duplicates(),
        forall|x: T| first_occurrences(items).contains(x) <==> items.contains(x),
    decreases items.len(),
{
    if items.len() > 0 {
        let front = items.drop_last();
        let last = items.last();
        lemma_first_occurrences(front);
        let before = first_occurrences(front);
        assert(items =~= front.push(last));
        assert forall|x: T| first_occurrences(items).contains(x) <==> items.contains(x) by {
            vstd::seq_lib::lemma_seq_contains_after_push(front, last, x);
            vstd::seq_lib::lemma_seq_contains_after_push(before, last, x);
        }
        if !before.contains(last) {
            assert forall|i: int, j: int|
                0 <= i < before.len() + 1 && 0 <= j < before.len() + 1 && i != j implies before.push(
                last,
            )[i] != before.push(last)[j] by {
                if i < before.len() && j < before.len() {
                } else if i < before.len() {
                    assert(before.contains(before[i]));
                } else {
                    assert(before.contains(before[j]));
                }
            }
        }
    }
}

/// The owners and tags that the entries name hold those of each entry.
pub proof fn lemma_named_hold_those_of_each_entry(entries: Seq<EntryView>, place: int)
    requires
        0 <= place < entries.len(),
    ensures
        forall|owner: OwnerView|
            entries[place].owners.contains(owner) ==> named_owners(entries).contains(owner),
        forall|tag: Seq<char>|
            entries[place].tags.contains(tag) ==> named_tags(entries).contains(tag),
    decreases entries.len(),
{
    let front = entries.drop_last();
    let last = entries.last();
    if place < entries.len() - 1 {
        lemma_named_hold_those_of_each_entry(front, place);
        assert(front[place] == entries[place]);
    }
    assert forall|owner: OwnerView| entries[place].owners.contains(owner) implies named_owners(
        entries,
    ).contains(owner) by {
        if place < entries.len() - 1 {
            assert(front[place].owners.contains(owner));
            assert(named_owners(front).contains(owner));
            let at = choose|at: int|
                0 <= at < named_owners(front).len() && named_owners(front)[at] == owner;
            assert(named_owners(entries)[at] == owner);
        } else {
            let at = choose|at: int| 0 <= at < last.owners.len() && last.owners[at] == owner;
            assert(named_owners(entries)[named_owners(front).len() + at] == owner);
        }
    }
    assert forall|tag: Seq<char>| entries[place].tags.contains(tag) implies named_tags(
        entries,
    ).contains(tag) by {
        if place < entries.len() - 1 {
            assert(front[place].tags.contains(tag));
            assert(named_tags(front).contains(tag));
            let at = choose|at: int|
                0 <= at < named_tags(front).len() && named_tags(front)[at] == tag;
            assert(named_tags(entries)[at] == tag);
        } else {
            let at = choose|at: int| 0 <= at < last.tags.len() && last.tags[at] == tag;
            assert(named_tags(entries)[named_tags(front).len() + at] == tag);
        }
    }
}

/// Whether `owner` is among `owners`.
pub fn has_owner(owners: &Vec<Owner>, owner: &Owner) -> (found: bool)
    ensures
        found == owners.deep_view().contains(owner@),
{
    let n = owners.len();
    let mut i: usize = 0;
    while i < n
        invariant
            n == owners.len(),
            i <= n,
            forall|j: int| 0 <= j < i ==> owners.deep_view()[j] != owner@,
        decreases n - i,
    {
        if owners[i] == *owner {
            assert(owners.deep_view()[i as int] == owner@);
            return true;
        }
        i += 1;
    }
    false
}

/// Whether `tag` is among `tags`.
pub fn has_tag(tags: &Vec<Tag>, tag: &Tag) -> (found: bool)
    ensures
        found == tags.deep_view().contains(tag@),
{
    let n = tags.len();
    let mut i: usize = 0;
    while i < n
        invariant
            n == tags.len(),
            i <= n,
            forall|j: int| 0 <= j < i ==> tags.deep_view()[j] != tag@,
        decreases n - i,
    {
        if tags[i] == *tag {
            assert(tags.deep_view()[i as int] == tag@);
            return true;
        }
        i += 1;
    }
    false
}

/// The paths of the files that `owner` owns, in the order of `files`.
pub fn find_files_for_owner(files: &[FileEntry], owner: &Owner) -> (paths: Vec<String>)
    ensures
        paths.deep_view() == files_for_owner(files.deep_view(), owner@),
{
    let ghost all = files.deep_view();
    let ghost owned = |file: FileView| file.owners.contains(owner@);
    let ghost path_of = |file: FileView| file.path;
    let mut paths: Vec<String> = Vec::new();
    let n = files.len();
    let mut i: usize = 0;
    proof {
        reveal(Seq::filter);
        assert(all.take(0) =~= Seq::<FileView>::empty());
        assert(paths.deep_view() =~= all.take(0).filter(owned).map_values(path_of));
    }
    while i < n
        invariant
            n == files.len(),
            i <= n,
            all == files.deep_view(),
            owned == (|file: FileView| file.owners.contains(owner@)),
            path_of == (|file: FileView| file.path),
            paths.deep_view() == all.take(i as int).filter(owned).map_values(path_of),
        decreases n - i,
    {
        let ghost before = paths.deep_view();
        let ghost kept = all.take(i as int).filter(owned);
        proof {
            assert(all.take(i + 1) =~= all.take(i as int).push(all[i as int]));
            all.take(i as int).lemma_filter_push(all[i as int], owned);
            assert(all[i as int] == files@[i as int]@);
        }
        if has_owner(&files[i].owners, owner) {
            paths.push(files[i].path.clone());
            proof {
                assert(paths.deep_view() =~= before.push(files@[i as int].path@));
                assert(kept.push(all[i as int]).map_values(path_of) =~= kept.map_values(
                    path_of,
                ).push(path_of(all[i as int])));
            }
        } else {
            assert(paths.deep_view() =~= before);
        }
        i += 1;
    }
    assert(all.take(n as int) =~= all);
    paths
}

/// The paths of the files that carry `tag`, in the order of `files`.
pub fn find_files_for_tag(files: &[FileEntry], tag: &Tag) -> (paths: Vec<String>)
    ensures
        paths.deep_view() == files_for_tag(files.deep_view(), tag@),
{
    let ghost all = files.deep_view();
    let ghost tagged = |file: FileView| file.tags.contains(tag@);
    let ghost path_of = |file: FileView| file.path;
    let mut paths: Vec<String> = Vec::new();
    let n = files.len();
    let mut i: usize = 0;
    proof {
        reveal(Seq::filter);
        assert(all.take(0) =~= Seq::<FileView>::empty());
        assert(paths.deep_view() =~= all.take(0).filter(tagged).map_values(path_of));
    }
    while i < n
        invariant
            n == files.len(),
            i <= n,
            all == files.deep_view(),
            tagged == (|file: FileView| file.tags.contains(tag@)),
            path_of == (|file: FileView| file.path),
            paths.deep_view() == all.take(i as int).filter(tagged).map_values(path_of),
        decreases n - i,
    {
        let ghost before = paths.deep_view();
        let ghost kept = all.take(i as int).filter(tagged);
        proof {
            assert(all.take(i + 1) =~= all.take(i as int).push(all[i as int]));
            all.take(i as int).lemma_filter_push(all[i as int], tagged);
            assert(all[i as int] == files@[i as int]@);
        }
        if has_tag(&files[i].tags, tag) {
            paths.push(files[i].path.clone());
            proof {
                assert(paths.deep_view() =~= before.push(files@[i as int].path@));
                assert(kept.push(all[i as int]).map_values(path_of) =~= kept.map_values(
                    path_of,
                ).push(path_of(all[i as int])));
            }
        } else {
            assert(paths.deep_view() =~= before);
        }
        i += 1;
    }
    assert(all.take(n as int) =~= all);
    paths
}

/// The owners that the entries name, each once, in the order in which they
/// first occur.
pub fn collect_owners(entries: &[CodeownersEntry]) -> (owners: Vec<Owner>)
    ensures
        owners.deep_view() == first_occurrences(named_owners(entries.deep_view())),
{
    let ghost all = entries.deep_view();
    let mut owners: Vec<Owner> = Vec::new();
    let n = entries.len();
    let mut i: usize = 0;
    proof {
        assert(all.take(0) =~= Seq::<EntryView>::empty());
        assert(owners.deep_view() =~= first_occurrences(named_owners(all.take(0))));
    }
    while i < n
        invariant
            n == entries.len(),
            i <= n,
            all == entries.deep_view(),
            owners.deep_view() == first_occurrences(named_owners(all.take(i as int))),
        decreases n - i,
    {
        let entry = &entries[i];
        let ghost done = named_owners(all.take(i as int));
        let ghost here = entry.owners.deep_view();
        let m = entry.owners.len();
        let mut k: usize = 0;
        proof {
            assert(all.take(i + 1).drop_last() =~= all.take(i as int));
            assert(all.take(i + 1).last() == entry@);
            assert(done + here.take(0) =~= done);
        }
        while k < m
            invariant
                m == entry.owners.len(),
                k <= m,
                here == entry.owners.deep_view(),
                owners.deep_view() == first_occurrences(done + here.take(k as int)),
            decreases m - k,
        {
            let ghost before = owners.deep_view();
            proof {
                let next = done + here.take(k + 1);
                assert(next.drop_last() =~= done + here.take(k as int));
                assert(next.last() == entry.owners@[k as int]@);
            }
            if !has_owner(&owners, &entry.owners[k]) {
                owners.push(entry.owners[k].clone());
                assert(owners.deep_view() =~= before.push(entry.owners@[k as int]@));
            }
            k += 1;
        }
        assert(here.take(m as int) =~= here);
        i += 1;
    }
    assert(all.take(n as int) =~= all);
    owners
}

/// The tags that the entries name, each once, in the order in which they
/// first occur.
pub fn collect_tags(entries: &[CodeownersEntry]) -> (tags: Vec<Tag>)
    ensures
        tags.deep_view() == first_occurrences(named_tags(entries.deep_view())),
{
    let ghost all = entries.deep_view();
    let mut tags: Vec<Tag> = Vec::new();
    let n = entries.len();
    let mut i: usize = 0;
    proof {
        assert(all.take(0) =~= Seq::<EntryView>::empty());
        assert(tags.deep_view() =~= first_occurrences(named_tags(all.take(0))));
    }
    while i < n
        invariant
            n == entries.len(),
            i <= n,
            all == entries.deep_view(),
            tags.deep_view() == first_occurrences(named_tags(all.take(i as int))),
        decreases n - i,
    {
        let entry = &entries[i];
        let ghost done = named_tags(all.take(i as int));
        let ghost here = entry.tags.deep_view();
        let m = entry.tags.len();
        let mut k: usize = 0;
        proof {
            assert(all.take(i + 1).drop_last() =~= all.take(i as int));
            assert(all.take(i + 1).last() == entry@);
            assert(done + here.take(0) =~= done);
        }
        while k < m
            invariant
                m == entry.tags.len(),
                k <= m,
                here == entry.tags.deep_view(),
                tags.deep_view() == first_occurrences(done + here.take(k as int)),
            decreases m - k,
        {
            let ghost before = tags.deep_view();
            proof {
                let next = done + here.take(k + 1);
                assert(next.drop_last() =~= done + here.take(k as int));
                assert(next.last() == entry.tags@[k as int]@);
            }
            if !has_tag(&tags, &entry.tags[k]) {
                tags.push(entry.tags[k].clone());
                assert(tags.deep_view() =~= before.push(entry.tags@[k as int]@));
            }
            k += 1;
        }
        assert(here.take(m as int) =~= here);
        i += 1;
    }
    assert(all.take(n as int) =~= all);
    tags
}

/// What an index holds for a key: the value of the last pair with that key.
pub open spec fn entry_for<K, V>(index: Seq<(K, V)>, key: K) -> Option<V>
    decreases index.len(),
{
    if index.len() == 0 {
        None
    } else if index.last().0 == key {
        Some(index.last().1)
    } else {
        entry_for(index.drop_last(), key)
    }
}

/// Looks an owner up in the owners index of a cache: the paths of its files,
/// or `None` where the index does not hold the owner.
pub fn owner_paths(index: &[(Owner, Vec<String>)], owner: &Owner) -> (paths: Option<Vec<String>>)
    ensures
        paths.deep_view() == entry_for(index.deep_view(), owner@),
{
    let ghost all = index.deep_view();
    let mut i: usize = index.len();
    assert(all.take(i as int) =~= all);
    while i > 0
        invariant
            i <= index.len(),
            all == index.deep_view(),
            entry_for(all, owner@) == entry_for(all.take(i as int), owner@),
        decreases i,
    {
        proof {
            assert(all.take(i as int).last() == index@[i - 1].deep_view());
            assert(all.take(i as int).drop_last() =~= all.take(i - 1));
        }
        if index[i - 1].0 == *owner {
            let paths = index[i - 1].1.clone();
            assert(paths.deep_view() =~= index@[i - 1].1.deep_view());
            return Some(paths);
        }
        i -= 1;
    }
    None
}

/// Looks a tag up in the tags index of a cache: the paths of its files, or
/// `None` where the index does not hold the tag.
pub fn tag_paths(index: &[(Tag, Vec<String>)], tag: &Tag) -> (paths: Option<Vec<String>>)
    ensures
        paths.deep_view() == entry_for(index.deep_view(), tag@),
{
    let ghost all = index.deep_view();
    let mut i: usize = index.len();
    assert(all.take(i as int) =~= all);
    while i > 0
        invariant
            i <= index.len(),
            all == index.deep_view(),
            entry_for(all, tag@) == entry_for(all.take(i as int), tag@),
        decreases i,
    {
        proof {
            assert(all.take(i as int).last() == index@[i - 1].deep_view());
            assert(all.take(i as int).drop_last() =~= all.take(i - 1));
        }
        if index[i - 1].0 == *tag {
            let paths = index[i - 1].1.clone();
            assert(paths.deep_view() =~= index@[i - 1].1.deep_view());
            return Some(paths);
        }
        i -= 1;
    }
    None
}

/// In an index without repeated keys, looking up the key of a pair finds the
/// value of that pair.
pub proof fn lemma_entry_for_own_key<K, V>(index: Seq<(K, V)>, place: int)
    requires
        0 <= place < index.len(),
        forall|i: int, j: int| 0 <= i < j < index.len() ==> index[i].0 != index[j].0,
    ensures
        entry_for(index, index[place].0) == Some(index[place].1),
    decreases index.len(),
{
    if place < index.len() - 1 {
        let front = index.drop_last();
        assert(index[place].0 != index[index.len() - 1].0);
        assert(front[place] == index[place]);
        lemma_entry_for_own_key(front, place);
    }
}

} // verus!
