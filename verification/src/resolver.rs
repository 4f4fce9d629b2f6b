//! Which entry decides the owners and tags of a file.
//!
//! An entry applies to a file when its declaration file lies in the file's
//! directory or in one above it, and its pattern matches the file. Among the
//! entries that apply, the nearest declaration wins; among those of one
//! distance, the later line; then the declaration file that comes first in
//! the order of paths; and among entries that agree in all of this, the first.

use crate::glob::override_whitelists;
use crate::matcher::{compile_matchers, compiled, CodeownersEntryMatcher, MatcherView};
use crate::paths::{
    child, components, directory, is_plain_name, is_root_part, leads_to,
    lemma_components_of_child, lemma_path_order_total, lemma_path_order_transitive, path_before,
    path_components, path_precedes,
};
use crate::text::texts;
use crate::types::{CodeownersEntry, Error, ErrorKind, Owner, OwnerView, Tag};
use vstd::prelude::*;

verus! {

/// Whether the entry applies to the file: its declaration file lies in the
/// file's directory or in one above it, and its set whitelists the path of
/// the file as it is written. Which directory lies above which is told by
/// the components of the paths.
pub open spec fn applies(file: Seq<char>, entry: MatcherView) -> bool {
    &&& directory(file) is Some
    &&& directory(entry.source_file) is Some
    &&& directory(entry.source_file)->0.is_prefix_of(directory(file)->0)
    &&& entry.matched.contains(file)
}

/// How many directories lie between the declaration file of the entry and the
/// file: 0 where both stand in one directory.
pub open spec fn depth(file: Seq<char>, entry: MatcherView) -> int {
    directory(file)->0.len() - directory(entry.source_file)->0.len()
}

/// Whether entry `a` takes precedence over entry `b` for the file.
pub open spec fn outranks(file: Seq<char>, a: MatcherView, b: MatcherView) -> bool {
    let da = depth(file, a);
    let db = depth(file, b);
    ||| da < db
    ||| da == db && a.line_number > b.line_number
    ||| da == db && a.line_number == b.line_number && path_precedes(
        components(a.source_file),
        components(b.source_file),
    )
}

/// Whether the entry at `index` decides the file: it applies, no entry that
/// applies outranks it, and it outranks every entry before it that applies.
pub open spec fn is_winner(file: Seq<char>, entries: Seq<MatcherView>, index: int) -> bool {
    &&& 0 <= index < entries.len()
    &&& applies(file, entries[index])
    &&& forall|j: int|
        0 <= j < entries.len() && applies(file, #[trigger] entries[j]) ==> !outranks(
            file,
            entries[j],
            entries[index],
        )
    &&& forall|j: int|
        0 <= j < index && applies(file, #[trigger] entries[j]) ==> outranks(
            file,
            entries[index],
            entries[j],
        )
}

/// The index of the entry that decides the file, if any entry applies.
pub open spec fn winner(file: Seq<char>, entries: Seq<MatcherView>) -> Option<int> {
    if exists|index: int| is_winner(file, entries, index) {
        Some(choose|index: int| is_winner(file, entries, index))
    } else {
        None
    }
}

/// The owners of the file: those of the deciding entry, or none.
pub open spec fn resolved_owners(file: Seq<char>, entries: Seq<MatcherView>) -> Seq<OwnerView> {
    match winner(file, entries) {
        Some(index) => entries[index].owners,
        None => Seq::empty(),
    }
}

/// The tags of the file: those of the deciding entry, or none.
pub open spec fn resolved_tags(file: Seq<char>, entries: Seq<MatcherView>) -> Seq<Seq<char>> {
    match winner(file, entries) {
        Some(index) => entries[index].tags,
        None => Seq::empty(),
    }
}

/// Precedence is a strict order that leaves no two entries incomparable but
/// those that agree in distance, line and declaration file.
pub proof fn lemma_outranks_is_order(file: Seq<char>, a: MatcherView, b: MatcherView, c: MatcherView)
    ensures
        !outranks(file, a, a),
        outranks(file, a, b) ==> !outranks(file, b, a),
        outranks(file, a, c) ==> outranks(file, a, b) || outranks(file, b, c),
{
    let pa = components(a.source_file);
    let pb = components(b.source_file);
    let pc = components(c.source_file);
    lemma_path_order_total(pa, pa);
    lemma_path_order_total(pa, pb);
    lemma_path_order_total(pb, pc);
    lemma_path_order_total(pa, pc);
    if path_precedes(pa, pc) && !path_precedes(pa, pb) && pa != pb {
        lemma_path_order_transitive(pb, pa, pc);
    }
}

/// At most one entry decides a file.
pub proof fn lemma_winner_unique(file: Seq<char>, entries: Seq<MatcherView>, v: int, w: int)
    requires
        is_winner(file, entries, v),
        is_winner(file, entries, w),
    ensures
        v == w,
{
    if v < w {
        assert(outranks(file, entries[w], entries[v]));
    } else if w < v {
        assert(outranks(file, entries[v], entries[w]));
    }
}

/// Where any entry applies, one entry decides: the deciding entry among the
/// first `count` entries exists as soon as one of them applies.
pub proof fn lemma_winner_among_first(file: Seq<char>, entries: Seq<MatcherView>, count: int) -> (index:
    int)
    requires
        0 <= count <= entries.len(),
        exists|j: int| 0 <= j < count && applies(file, entries[j]),
    ensures
        is_winner(file, entries.take(count), index),
    decreases count,
{
    let last = count - 1;
    let shorter = entries.take(last);
    let now = entries.take(count);
    assert forall|j: int| 0 <= j < last implies shorter[j] == now[j] by {}
    if exists|j: int| 0 <= j < last && applies(file, entries[j]) {
        let before = lemma_winner_among_first(file, entries, last);
        assert(shorter[before] == now[before]);
        if applies(file, entries[last]) && outranks(file, entries[last], entries[before]) {
            assert forall|j: int|
                0 <= j < now.len() && applies(file, #[trigger] now[j]) implies !outranks(
                file,
                now[j],
                now[last],
            ) by {
                lemma_outranks_is_order(file, now[last], now[j], now[before]);
                lemma_outranks_is_order(file, now[last], now[j], now[last]);
                lemma_outranks_is_order(file, now[last], now[last], now[last]);
                if j < last {
                    assert(shorter[j] == now[j]);
                }
            }
            assert forall|j: int| 0 <= j < last && applies(file, #[trigger] now[j]) implies outranks(
                file,
                now[last],
                now[j],
            ) by {
                lemma_outranks_is_order(file, now[last], now[j], now[before]);
                assert(shorter[j] == now[j]);
            }
            last
        } else {
            assert forall|j: int|
                0 <= j < now.len() && applies(file, #[trigger] now[j]) implies !outranks(
                file,
                now[j],
                now[before],
            ) by {
                if j < last {
                    assert(shorter[j] == now[j]);
                }
            }
            assert forall|j: int| 0 <= j < before && applies(file, #[trigger] now[j]) implies outranks(
                file,
                now[before],
                now[j],
            ) by {
                assert(shorter[j] == now[j]);
            }
            before
        }
    } else {
        assert(applies(file, entries[last]));
        lemma_outranks_is_order(file, now[last], now[last], now[last]);
        last
    }
}

/// A file is decided if and only if some entry applies to it, and the entry
/// that `winner` names is the one that decides.
pub proof fn lemma_winner_exists(file: Seq<char>, entries: Seq<MatcherView>)
    ensures
        winner(file, entries) is Some <==> exists|j: int|
            0 <= j < entries.len() && applies(file, entries[j]),
        winner(file, entries) matches Some(index) ==> is_winner(file, entries, index),
{
    if exists|j: int| 0 <= j < entries.len() && applies(file, entries[j]) {
        let index = lemma_winner_among_first(file, entries, entries.len() as int);
        assert(entries.take(entries.len() as int) =~= entries);
    }
    if winner(file, entries) is Some {
        let index = winner(file, entries)->0;
        assert(applies(file, entries[index]));
    }
}

/// Where no entry applies to a file, be it that no declaration file stands in
/// the file's directory or above it, or that no pattern matches, the file has
/// no owners and no tags.
pub proof fn lemma_unmatched_file_is_unowned(file: Seq<char>, entries: Seq<MatcherView>)
    requires
        forall|j: int| 0 <= j < entries.len() ==> !applies(file, entries[j]),
    ensures
        resolved_owners(file, entries) == Seq::<OwnerView>::empty(),
        resolved_tags(file, entries) == Seq::<Seq<char>>::empty(),
{
    lemma_winner_exists(file, entries);
}

/// The nearest declaration wins: no entry that applies is declared nearer to
/// the file than the deciding one, whatever the line numbers are. So an entry
/// that applies from the file's own directory keeps every entry of a
/// directory above from deciding.
pub proof fn lemma_nearest_declaration_wins(
    file: Seq<char>,
    entries: Seq<MatcherView>,
    index: int,
    other: int,
)
    requires
        winner(file, entries) == Some(index),
        0 <= other < entries.len(),
        applies(file, entries[other]),
    ensures
        0 <= depth(file, entries[index]) <= depth(file, entries[other]),
{
    lemma_winner_exists(file, entries);
}

/// An entry that applies from the file's own directory decides against an
/// entry that is declared elsewhere, whatever the two line numbers are and
/// whichever of the two comes first.
pub proof fn lemma_own_directory_entry_decides(
    file: Seq<char>,
    near: MatcherView,
    far: MatcherView,
    entries: Seq<MatcherView>,
)
    requires
        entries == seq![far, near] || entries == seq![near, far],
        directory(near.source_file) == directory(file),
        directory(far.source_file) != directory(file),
        applies(file, near),
    ensures
        resolved_owners(file, entries) == near.owners,
        resolved_tags(file, entries) == near.tags,
{
    let place: int = if entries == seq![far, near] {
        1
    } else {
        0
    };
    assert(entries[place] == near && entries[1 - place] == far);
    lemma_outranks_is_order(file, near, near, near);
    if applies(file, far) {
        let above = directory(far.source_file)->0;
        let own = directory(file)->0;
        if above.len() == own.len() {
            assert(above =~= own);
        }
        assert(depth(file, near) == 0 && depth(file, far) > 0);
    }
    assert forall|j: int|
        0 <= j < entries.len() && applies(file, #[trigger] entries[j]) implies !outranks(
        file,
        entries[j],
        entries[place],
    ) by {
        assert(j == place || j == 1 - place);
    }
    assert forall|j: int| 0 <= j < place && applies(file, #[trigger] entries[j]) implies outranks(
        file,
        entries[place],
        entries[j],
    ) by {
        assert(j == 1 - place);
    }
    assert(is_winner(file, entries, place));
    lemma_winner_exists(file, entries);
    lemma_winner_unique(file, entries, place, winner(file, entries)->0);
}

/// Depth precedence: of an entry declared in `root/declaration` and an entry
/// declared in `root/sub/declaration`, the second decides the file
/// `root/sub/name` where its set whitelists the file. This holds for every
/// directory `root`, the empty one and the root of the file system too, for
/// all names, for all line numbers and patterns of the two entries, and in
/// either order of the two. Whether a set whitelists a file is the answer of
/// the glob matcher, so it is asked for here.
pub proof fn lemma_nested_declaration_decides(
    root: Seq<char>,
    sub: Seq<char>,
    name: Seq<char>,
    declaration: Seq<char>,
    above: MatcherView,
    nested: MatcherView,
    entries: Seq<MatcherView>,
)
    requires
        is_plain_name(sub),
        is_plain_name(name),
        is_plain_name(declaration),
        above.source_file == child(root, declaration),
        nested.source_file == child(child(root, sub), declaration),
        nested.matched.contains(child(child(root, sub), name)),
        entries == seq![above, nested] || entries == seq![nested, above],
    ensures
        resolved_owners(child(child(root, sub), name), entries) == nested.owners,
        resolved_tags(child(child(root, sub), name), entries) == nested.tags,
{
    let file = child(child(root, sub), name);
    lemma_components_of_child(root, sub);
    lemma_components_of_child(child(root, sub), name);
    lemma_components_of_child(root, declaration);
    lemma_components_of_child(child(root, sub), declaration);
    let own = components(child(root, sub));
    assert(own.len() == components(root).len() + 1);
    assert(own.is_prefix_of(own)) by {
        assert(own =~= own.subrange(0, own.len() as int));
    }
    lemma_own_directory_entry_decides(file, nested, above, entries);
}

/// Among the entries of one distance the later line wins: no entry that
/// applies from as near as the deciding one stands on a later line.
pub proof fn lemma_later_line_wins(
    file: Seq<char>,
    entries: Seq<MatcherView>,
    index: int,
    other: int,
)
    requires
        winner(file, entries) == Some(index),
        0 <= other < entries.len(),
        applies(file, entries[other]),
        depth(file, entries[other]) == depth(file, entries[index]),
    ensures
        entries[other].line_number <= entries[index].line_number,
{
    lemma_winner_exists(file, entries);
}

/// The views of a vector of matchers.
pub open spec fn views(matchers: Seq<CodeownersEntryMatcher>) -> Seq<MatcherView> {
    Seq::new(matchers.len(), |i: int| matchers[i]@)
}

/// The components of the declaration file of each matcher.
pub(crate) fn source_parts(matchers: &[CodeownersEntryMatcher]) -> (sources: Vec<Vec<Vec<char>>>)
    ensures
        sources.len() == matchers.len(),
        forall|i: int|
            0 <= i < matchers.len() ==> texts(#[trigger] sources@[i]@) == components(
                matchers@[i].source_file@,
            ),
{
    let mut sources: Vec<Vec<Vec<char>>> = Vec::new();
    let n = matchers.len();
    let mut i: usize = 0;
    while i < n
        invariant
            n == matchers.len(),
            i <= n,
            sources.len() == i,
            forall|k: int|
                0 <= k < i ==> texts(#[trigger] sources@[k]@) == components(
                    matchers@[k].source_file@,
                ),
        decreases n - i,
    {
        sources.push(path_components(matchers[i].source_file.as_str()));
        i += 1;
    }
    sources
}

/// Finds the entry that decides the file `file_path`, whose directory is
/// `target`.
fn pick_winner(
    file_path: &str,
    target: &Vec<Vec<char>>,
    matchers: &[CodeownersEntryMatcher],
    sources: &Vec<Vec<Vec<char>>>,
) -> (found: Option<usize>)
    requires
        directory(file_path@) == Some(texts(target@)),
        sources.len() == matchers.len(),
        forall|i: int|
            0 <= i < matchers.len() ==> texts(#[trigger] sources@[i]@) == components(
                matchers@[i].source_file@,
            ),
    ensures
        found is Some <==> winner(file_path@, views(matchers@)) is Some,
        found matches Some(index) ==> winner(file_path@, views(matchers@)) == Some(index as int),
{
    let ghost file = file_path@;
    let ghost all = views(matchers@);
    let n = matchers.len();
    let mut best: Option<usize> = None;
    let mut best_depth: usize = 0;
    let mut i: usize = 0;
    while i < n
        invariant
            n == matchers.len(),
            i <= n,
            all == views(matchers@),
            file == file_path@,
            directory(file) == Some(texts(target@)),
            sources.len() == matchers.len(),
            forall|k: int|
                0 <= k < matchers.len() ==> texts(#[trigger] sources@[k]@) == components(
                    matchers@[k].source_file@,
                ),
            best is None ==> forall|j: int| 0 <= j < i ==> !applies(file, #[trigger] all[j]),
            best matches Some(b) ==> {
                &&& b < i
                &&& applies(file, all[b as int])
                &&& best_depth == depth(file, all[b as int])
                &&& forall|j: int|
                    0 <= j < i && applies(file, #[trigger] all[j]) ==> !outranks(
                        file,
                        all[j],
                        all[b as int],
                    )
                &&& forall|j: int|
                    0 <= j < b && applies(file, #[trigger] all[j]) ==> outranks(
                        file,
                        all[b as int],
                        all[j],
                    )
            },
        decreases n - i,
    {
        let matcher = &matchers[i];
        let parts = &sources[i];
        let count = parts.len();
        let ghost here = all[i as int];
        let ghost whole = texts(parts@);
        assert(here == matcher@);
        assert(whole == components(here.source_file));
        let mut fits = false;
        let mut distance: usize = 0;
        if count > 0 {
            assert(whole.last() == parts@[count - 1]@);
            if !is_root_part(&parts[count - 1]) {
                assert(whole.drop_last() =~= whole.take(count - 1));
                if leads_to(parts, count - 1, target) {
                    if override_whitelists(&matcher.override_matcher, file_path) {
                        fits = true;
                        distance = target.len() - (count - 1);
                    }
                }
            }
        }
        assert(fits == applies(file, here));
        if fits {
            assert(distance == depth(file, here));
            let better = match best {
                None => true,
                Some(b) => {
                    let other = &matchers[b];
                    assert(all[b as int] == other@);
                    if distance != best_depth {
                        distance < best_depth
                    } else if matcher.line_number != other.line_number {
                        matcher.line_number > other.line_number
                    } else {
                        path_before(parts, &sources[b])
                    }
                },
            };
            proof {
                if let Some(b) = best {
                    assert(better == outranks(file, here, all[b as int]));
                    assert forall|j: int|
                        0 <= j < i && applies(file, #[trigger] all[j]) && better implies outranks(
                        file,
                        here,
                        all[j],
                    ) && !outranks(file, all[j], here) by {
                        lemma_outranks_is_order(file, here, all[j], all[b as int]);
                        lemma_outranks_is_order(file, here, all[j], here);
                    }
                    lemma_outranks_is_order(file, here, here, here);
                } else {
                    lemma_outranks_is_order(file, here, here, here);
                }
            }
            if better {
                best = Some(i);
                best_depth = distance;
            }
        }
        i += 1;
    }
    proof {
        match best {
            Some(b) => {
                assert(is_winner(file, all, b as int));
                let chosen = choose|index: int| is_winner(file, all, index);
                lemma_winner_unique(file, all, chosen, b as int);
            },
            None => {
                assert forall|index: int| !is_winner(file, all, index) by {
                    if 0 <= index < all.len() {
                        assert(!applies(file, all[index]));
                    }
                }
            },
        }
    }
    best
}

/// Resolves a file against compiled entries: the owners and tags of the entry
/// that decides it, or two empty lists where no entry applies. The sets of
/// the entries are asked about the path as it is written.
///
/// Fails, with `InvalidInput`, exactly when the file has no directory.
pub fn find_owners_and_tags_for_file(file_path: &str, entries: &[CodeownersEntryMatcher]) -> (found:
    Result<(Vec<Owner>, Vec<Tag>), Error>)
    ensures
        found is Ok <==> directory(file_path@) is Some,
        found matches Ok(pair) ==> {
            &&& pair.0.deep_view() == resolved_owners(file_path@, entries.deep_view())
            &&& pair.1.deep_view() == resolved_tags(file_path@, entries.deep_view())
        },
        found matches Err(error) ==> error.kind == ErrorKind::InvalidInput && error.message@
            == "file path has no parent directory"@,
{
    let sources = source_parts(entries);
    resolve_with_sources(file_path, entries, &sources)
}

/// Resolves a file against compiled entries whose declaration files are
/// already split into components.
pub(crate) fn resolve_with_sources(
    file_path: &str,
    entries: &[CodeownersEntryMatcher],
    sources: &Vec<Vec<Vec<char>>>,
) -> (found: Result<(Vec<Owner>, Vec<Tag>), Error>)
    requires
        sources.len() == entries.len(),
        forall|i: int|
            0 <= i < entries.len() ==> texts(#[trigger] sources@[i]@) == components(
                entries@[i].source_file@,
            ),
    ensures
        found is Ok <==> directory(file_path@) is Some,
        found matches Ok(pair) ==> {
            &&& pair.0.deep_view() == resolved_owners(file_path@, entries.deep_view())
            &&& pair.1.deep_view() == resolved_tags(file_path@, entries.deep_view())
        },
        found matches Err(error) ==> error.kind == ErrorKind::InvalidInput && error.message@
            == "file path has no parent directory"@,
{
    let mut parts = path_components(file_path);
    let count = parts.len();
    if count == 0 {
        return Err(Error::new(ErrorKind::InvalidInput, "file path has no parent directory"));
    }
    assert(texts(parts@).last() == parts@[count - 1]@);
    if is_root_part(&parts[count - 1]) {
        return Err(Error::new(ErrorKind::InvalidInput, "file path has no parent directory"));
    }
    let ghost whole = parts@;
    parts.pop();
    assert(texts(parts@) =~= texts(whole).drop_last());
    assert(entries.deep_view() =~= views(entries@));
    match pick_winner(file_path, &parts, entries, sources) {
        Some(index) => {
            let entry = &entries[index];
            let owners = entry.owners.clone();
            let tags = entry.tags.clone();
            assert(owners.deep_view() =~= entry.owners.deep_view());
            assert(tags.deep_view() =~= entry.tags.deep_view());
            Ok((owners, tags))
        },
        None => {
            let owners: Vec<Owner> = Vec::new();
            let tags: Vec<Tag> = Vec::new();
            assert(owners.deep_view() =~= Seq::<OwnerView>::empty());
            assert(tags.deep_view() =~= Seq::<Seq<char>>::empty());
            Ok((owners, tags))
        },
    }
}

/// The owners of a file under the given entries. The patterns are compiled
/// for this one query; entries that have no directory or whose pattern does
/// not compile take no part.
///
/// Fails, with `InvalidInput`, exactly when the file has no directory.
pub fn find_owners_for_file(file_path: &str, entries: &[CodeownersEntry]) -> (found: Result<
    Vec<Owner>,
    Error,
>)
    ensures
        found is Ok <==> directory(file_path@) is Some,
        found matches Ok(owners) ==> owners.deep_view() == resolved_owners(
            file_path@,
            compiled(entries.deep_view()),
        ),
        found matches Err(error) ==> error.kind == ErrorKind::InvalidInput && error.message@
            == "file path has no parent directory"@,
{
    let matchers = compile_matchers(entries);
    match find_owners_and_tags_for_file(file_path, matchers.as_slice()) {
        Ok(pair) => Ok(pair.0),
        Err(error) => Err(error),
    }
}

/// The tags of a file under the given entries. The patterns are compiled for
/// this one query; entries that have no directory or whose pattern does not
/// compile take no part.
///
/// Fails, with `InvalidInput`, exactly when the file has no directory.
pub fn find_tags_for_file(file_path: &str, entries: &[CodeownersEntry]) -> (found: Result<
    Vec<Tag>,
    Error,
>)
    ensures
        found is Ok <==> directory(file_path@) is Some,
        found matches Ok(tags) ==> tags.deep_view() == resolved_tags(
            file_path@,
            compiled(entries.deep_view()),
        ),
        found matches Err(error) ==> error.kind == ErrorKind::InvalidInput && error.message@
            == "file path has no parent directory"@,
{
    let matchers = compile_matchers(entries);
    match find_owners_and_tags_for_file(file_path, matchers.as_slice()) {
        Ok(pair) => Ok(pair.1),
        Err(error) => Err(error),
    }
}

} // verus!
