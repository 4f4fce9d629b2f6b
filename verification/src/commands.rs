//! What the commands compute before they print: options read from text, the
//! selection of files, the order of an index, and the texts of the columns.

use crate::paths::{components, part_rank, path_components, rank_of};
use crate::text::{
    append_chars, chars_of, pieces, same_but_for_case, same_ignoring_ascii_case, split_pieces,
    string_of_all, texts, Separator,
};
use crate::types::{
    CacheEncoding, FileEntry, FileView, OutputFormat, Owner, OwnerType, OwnerView, Tag,
};
use vstd::prelude::*;

verus! {

/// Whether `pattern` stands in `text` at the place `at`.
pub open spec fn occurs_at(text: Seq<char>, pattern: Seq<char>, at: int) -> bool {
    0 <= at && at + pattern.len() <= text.len() && text.subrange(at, at + pattern.len()) == pattern
}

/// Whether `text` holds `pattern` somewhere. Every text holds the empty
/// pattern.
pub open spec fn contains_text(text: Seq<char>, pattern: Seq<char>) -> bool {
    exists|at: int| occurs_at(text, pattern, at)
}

/// Whether one of `names` holds one of `patterns`.
pub open spec fn any_contains(names: Seq<Seq<char>>, patterns: Seq<Seq<char>>) -> bool {
    exists|i: int, j: int|
        0 <= i < names.len() && 0 <= j < patterns.len() && contains_text(
            #[trigger] names[i],
            #[trigger] patterns[j],
        )
}

/// The identifiers of the owners.
pub open spec fn identifiers(owners: Seq<OwnerView>) -> Seq<Seq<char>> {
    owners.map_values(|owner: OwnerView| owner.identifier)
}

/// Which files a listing shows.
#[derive(Debug)]
pub struct FileFilter {
    /// A list of texts, separated by commas: only files with a tag that
    /// holds one of them.
    pub tags: Option<String>,
    /// A list of texts, separated by commas: only files with an owner whose
    /// identifier holds one of them.
    pub owners: Option<String>,
    /// Only files without owners.
    pub unowned: bool,
    /// Also files that have neither owners nor tags.
    pub show_all: bool,
}

/// What a [`FileFilter`] is, as plain values.
pub struct FilterView {
    pub tags: Option<Seq<char>>,
    pub owners: Option<Seq<char>>,
    pub unowned: bool,
    pub show_all: bool,
}

impl View for FileFilter {
    type V = FilterView;

    open spec fn view(&self) -> FilterView {
        FilterView {
            tags: match self.tags {
                Some(list) => Some(list@),
                None => None,
            },
            owners: match self.owners {
                Some(list) => Some(list@),
                None => None,
            },
            unowned: self.unowned,
            show_all: self.show_all,
        }
    }
}

/// Whether the filter lets the file pass.
pub open spec fn passes(file: FileView, filter: FilterView) -> bool {
    &&& filter.owners matches Some(list) ==> any_contains(
        identifiers(file.owners),
        pieces(list, Separator::Char(',')),
    )
    &&& filter.tags matches Some(list) ==> any_contains(
        file.tags,
        pieces(list, Separator::Char(',')),
    )
    &&& filter.unowned ==> file.owners.len() == 0
    &&& (filter.show_all || filter.unowned || file.owners.len() > 0 || file.tags.len() > 0)
}

/// Whether `text` holds `pattern` somewhere.
pub fn text_contains(text: &Vec<char>, pattern: &Vec<char>) -> (found: bool)
    ensures
        found == contains_text(text@, pattern@),
{
    let n = text.len();
    let m = pattern.len();
    if m > n {
        return false;
    }
    let mut at: usize = 0;
    while at <= n - m
        invariant
            n == text.len(),
            m == pattern.len(),
            m <= n,
            at <= n - m + 1,
            forall|k: int| 0 <= k < at ==> !occurs_at(text@, pattern@, k),
        decreases n - m + 1 - at,
    {
        let mut k: usize = 0;
        while k < m && text[at + k] == pattern[k]
            invariant
                n == text.len(),
                m == pattern.len(),
                at + m <= n,
                k <= m,
                forall|j: int| 0 <= j < k ==> text@[at + j] == pattern@[j],
            decreases m - k,
        {
            k += 1;
        }
        if k == m {
            assert(text@.subrange(at as int, at + m) =~= pattern@);
            assert(occurs_at(text@, pattern@, at as int));
            return true;
        }
        assert(text@.subrange(at as int, at + m)[k as int] != pattern@[k as int]);
        at += 1;
    }
    false
}

/// Whether one of `names` holds one of `patterns`.
fn any_holds(names: &Vec<Vec<char>>, patterns: &Vec<Vec<char>>) -> (found: bool)
    ensures
        found == any_contains(texts(names@), texts(patterns@)),
{
    let mut i: usize = 0;
    while i < names.len()
        invariant
            i <= names.len(),
            forall|a: int, b: int|
                0 <= a < i && 0 <= b < patterns.len() ==> !contains_text(
                    #[trigger] texts(names@)[a],
                    #[trigger] texts(patterns@)[b],
                ),
        decreases names.len() - i,
    {
        let mut j: usize = 0;
        while j < patterns.len()
            invariant
                i < names.len(),
                j <= patterns.len(),
                forall|b: int|
                    0 <= b < j ==> !contains_text(
                        texts(names@)[i as int],
                        #[trigger] texts(patterns@)[b],
                    ),
            decreases patterns.len() - j,
        {
            if text_contains(&names[i], &patterns[j]) {
                assert(contains_text(texts(names@)[i as int], texts(patterns@)[j as int]));
                return true;
            }
            j += 1;
        }
        i += 1;
    }
    false
}

/// Whether the filter lets the file pass.
pub fn file_passes(file: &FileEntry, filter: &FileFilter) -> (shown: bool)
    ensures
        shown == passes(file@, filter@),
{
    if let Some(list) = &filter.owners {
        let patterns = split_pieces(&chars_of(list.as_str()), Separator::Char(','));
        let mut names: Vec<Vec<char>> = Vec::new();
        let mut i: usize = 0;
        while i < file.owners.len()
            invariant
                i <= file.owners.len(),
                texts(names@) == identifiers(file.owners.deep_view()).take(i as int),
            decreases file.owners.len() - i,
        {
            let ghost before = texts(names@);
            names.push(chars_of(file.owners[i].identifier.as_str()));
            i += 1;
            assert(texts(names@) =~= before.push(file.owners@[i - 1].identifier@));
            assert(texts(names@) =~= identifiers(file.owners.deep_view()).take(i as int));
        }
        assert(identifiers(file.owners.deep_view()).take(i as int) =~= identifiers(
            file.owners.deep_view(),
        ));
        if !any_holds(&names, &patterns) {
            return false;
        }
    }
    if let Some(list) = &filter.tags {
        let patterns = split_pieces(&chars_of(list.as_str()), Separator::Char(','));
        let mut names: Vec<Vec<char>> = Vec::new();
        let mut i: usize = 0;
        while i < file.tags.len()
            invariant
                i <= file.tags.len(),
                texts(names@) == file.tags.deep_view().take(i as int),
            decreases file.tags.len() - i,
        {
            let ghost before = texts(names@);
            names.push(chars_of(file.tags[i].0.as_str()));
            i += 1;
            assert(texts(names@) =~= before.push(file.tags@[i - 1]@));
            assert(texts(names@) =~= file.tags.deep_view().take(i as int));
        }
        assert(file.tags.deep_view().take(i as int) =~= file.tags.deep_view());
        if !any_holds(&names, &patterns) {
            return false;
        }
    }
    if filter.unowned && file.owners.len() > 0 {
        return false;
    }
    filter.show_all || filter.unowned || file.owners.len() > 0 || file.tags.len() > 0
}

/// The files that a listing shows: those that the filter lets pass, in their
/// order.
pub fn filter_files(files: &[FileEntry], filter: &FileFilter) -> (shown: Vec<FileEntry>)
    ensures
        shown.deep_view() == files.deep_view().filter(|file: FileView| passes(file, filter@)),
{
    let ghost all = files.deep_view();
    let ghost lets = |file: FileView| passes(file, filter@);
    let mut shown: Vec<FileEntry> = Vec::new();
    let n = files.len();
    let mut i: usize = 0;
    proof {
        reveal(Seq::filter);
        assert(all.take(0) =~= Seq::<FileView>::empty());
        assert(shown.deep_view() =~= all.take(0).filter(lets));
    }
    while i < n
        invariant
            n == files.len(),
            i <= n,
            all == files.deep_view(),
            lets == (|file: FileView| passes(file, filter@)),
            shown.deep_view() == all.take(i as int).filter(lets),
        decreases n - i,
    {
        let ghost before = shown.deep_view();
        proof {
            assert(all.take(i + 1) =~= all.take(i as int).push(all[i as int]));
            all.take(i as int).lemma_filter_push(all[i as int], lets);
            assert(all[i as int] == files@[i as int]@);
        }
        if file_passes(&files[i], filter) {
            shown.push(files[i].clone());
            assert(shown.deep_view() =~= before.push(files@[i as int]@));
        } else {
            assert(shown.deep_view() =~= before);
        }
        i += 1;
    }
    assert(all.take(n as int) =~= all);
    shown
}

/// The names joined by a comma and a space.
pub open spec fn comma_joined(names: Seq<Seq<char>>) -> Seq<char>
    decreases names.len(),
{
    if names.len() == 0 {
        Seq::empty()
    } else if names.len() == 1 {
        names[0]
    } else {
        comma_joined(names.drop_last()) + seq![',', ' '] + names.last()
    }
}

/// The text of an empty column.
pub open spec fn none_text() -> Seq<char> {
    seq!['N', 'o', 'n', 'e']
}

/// The text of a column of names: the names joined by commas, or `None`
/// where there are none.
pub open spec fn listed(names: Seq<Seq<char>>) -> Seq<char> {
    if names.len() == 0 {
        none_text()
    } else {
        comma_joined(names)
    }
}

/// The names joined by a comma and a space.
fn join_names(names: &Vec<Vec<char>>) -> (out: Vec<char>)
    ensures
        out@ == comma_joined(texts(names@)),
{
    let mut out: Vec<char> = Vec::new();
    let n = names.len();
    let mut i: usize = 0;
    assert(out@ =~= comma_joined(texts(names@).take(0)));
    while i < n
        invariant
            n == names.len(),
            i <= n,
            out@ == comma_joined(texts(names@).take(i as int)),
        decreases n - i,
    {
        let ghost upto = texts(names@).take(i + 1);
        proof {
            assert(upto.drop_last() =~= texts(names@).take(i as int));
            assert(upto.last() == names@[i as int]@);
        }
        if i > 0 {
            out.push(',');
            out.push(' ');
        }
        append_chars(&mut out, &names[i], 0, names[i].len());
        proof {
            assert(names@[i as int]@.subrange(0, names@[i as int]@.len() as int)
                =~= names@[i as int]@);
            if i == 0 {
                assert(out@ =~= names@[i as int]@);
            } else {
                assert(out@ =~= comma_joined(upto.drop_last()) + seq![',', ' '] + upto.last());
            }
        }
        i += 1;
    }
    assert(texts(names@).take(n as int) =~= texts(names@));
    out
}

/// The text of a column of names.
fn list_names(names: &Vec<Vec<char>>) -> (text: String)
    ensures
        text@ == listed(texts(names@)),
{
    if names.len() == 0 {
        let mut out: Vec<char> = Vec::new();
        out.push('N');
        out.push('o');
        out.push('n');
        out.push('e');
        assert(out@ =~= none_text());
        return string_of_all(&out);
    }
    string_of_all(&join_names(names))
}

/// The text of the owners column of a file: the identifiers joined by commas,
/// or `None`.
pub fn owners_display(owners: &[Owner]) -> (text: String)
    ensures
        text@ == listed(identifiers(owners.deep_view())),
{
    let mut names: Vec<Vec<char>> = Vec::new();
    let mut i: usize = 0;
    while i < owners.len()
        invariant
            i <= owners.len(),
            texts(names@) == identifiers(owners.deep_view()).take(i as int),
        decreases owners.len() - i,
    {
        let ghost before = texts(names@);
        names.push(chars_of(owners[i].identifier.as_str()));
        i += 1;
        assert(texts(names@) =~= before.push(owners@[i - 1].identifier@));
        assert(texts(names@) =~= identifiers(owners.deep_view()).take(i as int));
    }
    assert(identifiers(owners.deep_view()).take(i as int) =~= identifiers(owners.deep_view()));
    list_names(&names)
}

/// The text of the tags column of a file: the tags joined by commas, or
/// `None`.
pub fn tags_display(tags: &[Tag]) -> (text: String)
    ensures
        text@ == listed(tags.deep_view()),
{
    let mut names: Vec<Vec<char>> = Vec::new();
    let mut i: usize = 0;
    while i < tags.len()
        invariant
            i <= tags.len(),
            texts(names@) == tags.deep_view().take(i as int),
        decreases tags.len() - i,
    {
        let ghost before = texts(names@);
        names.push(chars_of(tags[i].0.as_str()));
        i += 1;
        assert(texts(names@) =~= before.push(tags@[i - 1]@));
        assert(texts(names@) =~= tags.deep_view().take(i as int));
    }
    assert(tags.deep_view().take(i as int) =~= tags.deep_view());
    list_names(&names)
}

/// The decimal digit of a number below ten.
pub open spec fn digit(n: nat) -> char {
    seq!['0', '1', '2', '3', '4', '5', '6', '7', '8', '9'][n as int]
}

/// A number in decimal digits.
pub open spec fn decimal(n: nat) -> Seq<char>
    decreases n,
{
    if n < 10 {
        seq![digit(n)]
    } else {
        decimal(n / 10).push(digit(n % 10))
    }
}

/// The decimal digits of a number.
fn decimal_chars(n: usize) -> (digits: Vec<char>)
    ensures
        digits@ == decimal(n as nat),
    decreases n,
{
    let last = n % 10;
    let c = if last == 0 {
        '0'
    } else if last == 1 {
        '1'
    } else if last == 2 {
        '2'
    } else if last == 3 {
        '3'
    } else if last == 4 {
        '4'
    } else if last == 5 {
        '5'
    } else if last == 6 {
        '6'
    } else if last == 7 {
        '7'
    } else if last == 8 {
        '8'
    } else {
        '9'
    };
    assert(c == digit(last as nat));
    if n < 10 {
        let mut digits: Vec<char> = Vec::new();
        digits.push(c);
        assert(digits@ =~= seq![digit(n as nat)]);
        digits
    } else {
        let mut digits = decimal_chars(n / 10);
        digits.push(c);
        digits
    }
}

/// The name that a path is shown by: its last component where that is a
/// name, else the path as it is.
pub open spec fn shown_name(path: Seq<char>) -> Seq<char> {
    let parts = components(path);
    if parts.len() > 0 && part_rank(parts.last()) == 3 {
        parts.last()
    } else {
        path
    }
}

/// The text of a column of sample files: the names of the first `limit`
/// paths, joined by commas, and the number of the others in brackets; `None`
/// where there are no paths.
pub open spec fn sample_text(paths: Seq<Seq<char>>, limit: nat) -> Seq<char> {
    if paths.len() == 0 {
        none_text()
    } else if paths.len() <= limit {
        comma_joined(paths.map_values(|path: Seq<char>| shown_name(path)))
    } else {
        comma_joined(paths.take(limit as int).map_values(|path: Seq<char>| shown_name(path)))
            + seq![' ', '(', '+'] + decimal((paths.len() - limit) as nat) + seq![')']
    }
}

/// The name that a path is shown by in a listing.
pub fn display_name(path: &str) -> (name: String)
    ensures
        name@ == shown_name(path@),
{
    string_of_all(&name_of(path))
}

/// The characters of the name that a path is shown by.
fn name_of(path: &str) -> (name: Vec<char>)
    ensures
        name@ == shown_name(path@),
{
    let mut parts = path_components(path);
    let n = parts.len();
    if n > 0 {
        assert(texts(parts@).last() == parts@[n - 1]@);
        if rank_of(&parts[n - 1]) == 3 {
            return parts.remove(n - 1);
        }
    }
    chars_of(path)
}

/// The text of the sample files column of an owner or a tag.
pub fn sample_files(paths: &[String], limit: usize) -> (text: String)
    ensures
        text@ == sample_text(paths.deep_view(), limit as nat),
{
    let n = paths.len();
    let ghost all = paths.deep_view();
    let ghost show = |path: Seq<char>| shown_name(path);
    let count = if n <= limit {
        n
    } else {
        limit
    };
    let mut names: Vec<Vec<char>> = Vec::new();
    let mut i: usize = 0;
    assert(texts(names@) =~= all.take(0).map_values(show));
    while i < count
        invariant
            count <= n,
            n == paths.len(),
            i <= count,
            all == paths.deep_view(),
            show == (|path: Seq<char>| shown_name(path)),
            texts(names@) == all.take(i as int).map_values(show),
        decreases count - i,
    {
        let ghost before = texts(names@);
        names.push(name_of(paths[i].as_str()));
        i += 1;
        assert(texts(names@) =~= before.push(shown_name(paths@[i - 1]@)));
        assert(texts(names@) =~= all.take(i as int).map_values(show));
    }
    if n <= limit {
        assert(all.take(n as int) =~= all);
        return list_names(&names);
    }
    let mut out = join_names(&names);
    let ghost joined = out@;
    out.push(' ');
    out.push('(');
    out.push('+');
    let digits = decimal_chars(n - limit);
    append_chars(&mut out, &digits, 0, digits.len());
    out.push(')');
    proof {
        assert(digits@.subrange(0, digits@.len() as int) =~= digits@);
        assert(out@ =~= joined + seq![' ', '(', '+'] + decimal((n - limit) as nat) + seq![')']);
    }
    string_of_all(&out)
}

/// Whether the key at `a` comes before the key at `b` in a listing by file
/// count: the key with more files comes first, and of two keys with equally
/// many files the one that stands first in the index.
pub open spec fn ranks_before(counts: Seq<usize>, a: int, b: int) -> bool {
    counts[a] > counts[b] || (counts[a] == counts[b] && a < b)
}

/// Whether `order` lists the places of `counts` by rank: every place once,
/// each before all that it ranks before.
pub open spec fn is_ranking(counts: Seq<usize>, order: Seq<usize>) -> bool {
    &&& order.len() == counts.len()
    &&& forall|i: int| 0 <= i < order.len() ==> #[trigger] order[i] < counts.len()
    &&& forall|i: int, j: int|
        0 <= i < j < order.len() ==> ranks_before(
            counts,
            #[trigger] order[i] as int,
            #[trigger] order[j] as int,
        )
}

/// A ranking holds every place of the index.
pub proof fn lemma_ranking_holds_every_place(counts: Seq<usize>, order: Seq<usize>, place: int)
    requires
        is_ranking(counts, order),
        0 <= place < counts.len(),
    ensures
        exists|i: int| 0 <= i < order.len() && order[i] == place,
{
    let places = order.map_values(|x: usize| x as int);
    let all = vstd::set_lib::set_int_range(0, counts.len() as int);
    assert forall|i: int, j: int|
        0 <= i < places.len() && 0 <= j < places.len() && i != j implies places[i] != places[j] by {
        if i < j {
            assert(ranks_before(counts, order[i] as int, order[j] as int));
        } else {
            assert(ranks_before(counts, order[j] as int, order[i] as int));
        }
    }
    places.unique_seq_to_set();
    vstd::set_lib::lemma_int_range(0, counts.len() as int);
    assert forall|x: int| places.to_set().contains(x) implies all.contains(x) by {
        let i = choose|i: int| 0 <= i < places.len() && places[i] == x;
        assert(order[i] < counts.len());
    }
    vstd::set_lib::lemma_len_subset(places.to_set(), all);
    vstd::set_lib::lemma_subset_equality(places.to_set(), all);
    assert(all.contains(place));
    assert(places.to_set().contains(place));
    let i = choose|i: int| 0 <= i < places.len() && places[i] == place;
    assert(order[i] == place);
}

/// Two rankings of one index agree in their first `upto` places.
proof fn lemma_rankings_agree(counts: Seq<usize>, a: Seq<usize>, b: Seq<usize>, upto: int)
    requires
        is_ranking(counts, a),
        is_ranking(counts, b),
        0 <= upto <= counts.len(),
    ensures
        forall|i: int| 0 <= i < upto ==> a[i] == b[i],
    decreases upto,
{
    if upto > 0 {
        lemma_rankings_agree(counts, a, b, upto - 1);
        let i = upto - 1;
        if a[i] != b[i] {
            let (first, second, other) = if ranks_before(counts, a[i] as int, b[i] as int) {
                (a, b, a[i] as int)
            } else {
                (b, a, b[i] as int)
            };
            assert(ranks_before(counts, first[i] as int, second[i] as int));
            lemma_ranking_holds_every_place(counts, second, other);
            let j = choose|j: int| 0 <= j < second.len() && second[j] == other;
            if j < i {
                assert(ranks_before(counts, first[j] as int, first[i] as int));
            } else if j > i {
                assert(ranks_before(counts, second[i] as int, second[j] as int));
            }
        }
    }
}

/// An index has one ranking only.
pub proof fn lemma_ranking_is_unique(counts: Seq<usize>, a: Seq<usize>, b: Seq<usize>)
    requires
        is_ranking(counts, a),
        is_ranking(counts, b),
    ensures
        a == b,
{
    lemma_rankings_agree(counts, a, b, counts.len() as int);
    assert(a =~= b);
}

/// The places of an index in the order of a listing by file count,
/// descending; `counts` holds the number of files of each key.
pub fn rank_by_count(counts: &[usize]) -> (order: Vec<usize>)
    ensures
        is_ranking(counts@, order@),
{
    let n = counts.len();
    let mut order: Vec<usize> = Vec::new();
    let mut k: usize = 0;
    while k < n
        invariant
            n == counts.len(),
            k <= n,
            order.len() == k,
            forall|i: int| 0 <= i < order.len() ==> #[trigger] order@[i] < k,
            forall|i: int, j: int|
                0 <= i < j < order.len() ==> ranks_before(
                    counts@,
                    #[trigger] order@[i] as int,
                    #[trigger] order@[j] as int,
                ),
        decreases n - k,
    {
        let mut place: usize = 0;
        while place < k && counts[order[place]] >= counts[k]
            invariant
                n == counts.len(),
                k < n,
                order.len() == k,
                place <= k,
                forall|i: int| 0 <= i < order.len() ==> #[trigger] order@[i] < k,
                forall|i: int|
                    0 <= i < place ==> counts@[#[trigger] order@[i] as int] >= counts@[k as int],
            decreases k - place,
        {
            place += 1;
        }
        let ghost before = order@;
        order.insert(place, k);
        proof {
            assert forall|i: int, j: int| 0 <= i < j < order.len() implies ranks_before(
                counts@,
                #[trigger] order@[i] as int,
                #[trigger] order@[j] as int,
            ) by {
                if j < place {
                    assert(order@[i] == before[i] && order@[j] == before[j]);
                } else if j == place {
                    assert(order@[i] == before[i]);
                } else if i < place {
                    assert(order@[i] == before[i] && order@[j] == before[j - 1]);
                } else if i == place {
                    assert(order@[j] == before[j - 1]);
                    if j - 1 > place {
                        assert(ranks_before(counts@, before[place as int] as int, before[j - 1] as int));
                    }
                } else {
                    assert(order@[i] == before[i - 1] && order@[j] == before[j - 1]);
                }
            }
        }
        k += 1;
    }
    order
}

/// The words for the output formats.
pub open spec fn format_word(format: OutputFormat) -> Seq<char> {
    match format {
        OutputFormat::Text => seq!['t', 'e', 'x', 't'],
        OutputFormat::Json => seq!['j', 's', 'o', 'n'],
        OutputFormat::Bincode => seq!['b', 'i', 'n', 'c', 'o', 'd', 'e'],
    }
}

/// The words for the cache encodings.
pub open spec fn encoding_word(encoding: CacheEncoding) -> Seq<char> {
    match encoding {
        CacheEncoding::Bincode => format_word(OutputFormat::Bincode),
        CacheEncoding::Json => format_word(OutputFormat::Json),
    }
}

/// The characters of the word for an output format.
fn format_chars(format: OutputFormat) -> (word: Vec<char>)
    ensures
        word@ == format_word(format),
{
    let mut word: Vec<char> = Vec::new();
    match format {
        OutputFormat::Text => {
            word.push('t');
            word.push('e');
            word.push('x');
            word.push('t');
        },
        OutputFormat::Json => {
            word.push('j');
            word.push('s');
            word.push('o');
            word.push('n');
        },
        OutputFormat::Bincode => {
            word.push('b');
            word.push('i');
            word.push('n');
            word.push('c');
            word.push('o');
            word.push('d');
            word.push('e');
        },
    }
    assert(word@ =~= format_word(format));
    word
}

/// The word for an output format: `text`, `json` or `bincode`.
pub fn output_format_name(format: OutputFormat) -> (name: String)
    ensures
        name@ == format_word(format),
{
    string_of_all(&format_chars(format))
}

/// Reads an output format: `text`, `json` or `bincode`, in any case. Any
/// other text is refused, with a message that names it.
pub fn parse_output_format(s: &str) -> (parsed: Result<OutputFormat, String>)
    ensures
        parsed matches Ok(format) ==> same_ignoring_ascii_case(s@, format_word(format)),
        parsed matches Err(message) ==> {
            &&& message@ == "Invalid output format: "@ + s@
            &&& forall|format: OutputFormat| !same_ignoring_ascii_case(s@, format_word(format))
        },
{
    let chars = chars_of(s);
    if same_but_for_case(&chars, &format_chars(OutputFormat::Text)) {
        Ok(OutputFormat::Text)
    } else if same_but_for_case(&chars, &format_chars(OutputFormat::Json)) {
        Ok(OutputFormat::Json)
    } else if same_but_for_case(&chars, &format_chars(OutputFormat::Bincode)) {
        Ok(OutputFormat::Bincode)
    } else {
        let mut message = "Invalid output format: ".to_owned();
        let mut i: usize = 0;
        let ghost head = message@;
        assert(message@ =~= head + s@.take(0));
        while i < chars.len()
            invariant
                i <= chars.len(),
                chars@ == s@,
                message@ == head + s@.take(i as int),
            decreases chars.len() - i,
        {
            message.push(chars[i]);
            i += 1;
            assert(message@ =~= head + s@.take(i as int));
        }
        assert(s@.take(chars.len() as int) =~= s@);
        Err(message)
    }
}

/// Reads a cache encoding: `bincode` or `json`, in any case. Any other text
/// is refused, with a message that names it.
pub fn parse_cache_encoding(s: &str) -> (parsed: Result<CacheEncoding, String>)
    ensures
        parsed matches Ok(encoding) ==> same_ignoring_ascii_case(s@, encoding_word(encoding)),
        parsed matches Err(message) ==> {
            &&& message@ == "Invalid cache encoding: "@ + s@
            &&& forall|encoding: CacheEncoding|
                !same_ignoring_ascii_case(s@, encoding_word(encoding))
        },
{
    let chars = chars_of(s);
    if same_but_for_case(&chars, &format_chars(OutputFormat::Bincode)) {
        Ok(CacheEncoding::Bincode)
    } else if same_but_for_case(&chars, &format_chars(OutputFormat::Json)) {
        Ok(CacheEncoding::Json)
    } else {
        let mut message = "Invalid cache encoding: ".to_owned();
        let mut i: usize = 0;
        let ghost head = message@;
        assert(message@ =~= head + s@.take(0));
        while i < chars.len()
            invariant
                i <= chars.len(),
                chars@ == s@,
                message@ == head + s@.take(i as int),
            decreases chars.len() - i,
        {
            message.push(chars[i]);
            i += 1;
            assert(message@ =~= head + s@.take(i as int));
        }
        assert(s@.take(chars.len() as int) =~= s@);
        Err(message)
    }
}

/// The name of an owner category, as it is shown.
pub fn owner_type_name(owner_type: OwnerType) -> (name: String)
    ensures
        name@ == match owner_type {
            OwnerType::User => "User"@,
            OwnerType::Team => "Team"@,
            OwnerType::Email => "Email"@,
            OwnerType::Unowned => "Unowned"@,
            OwnerType::Unknown => "Unknown"@,
        },
{
    match owner_type {
        OwnerType::User => "User".to_owned(),
        OwnerType::Team => "Team".to_owned(),
        OwnerType::Email => "Email".to_owned(),
        OwnerType::Unowned => "Unowned".to_owned(),
        OwnerType::Unknown => "Unknown".to_owned(),
    }
}

} // verus!
