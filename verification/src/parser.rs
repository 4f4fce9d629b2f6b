//! The text of a declaration file: lines of a pattern, owners and tags.
//!
//! A line is a sequence of words. A line without words, or one whose first
//! word begins with `#`, declares nothing. Otherwise the first word is the
//! pattern; the words after it are owners, up to the first word that begins
//! with `#`; the tags follow, each a word that begins with `#`, and what comes
//! after them is a comment.

use crate::text::{
    chars_of, lines, same_but_for_case, same_ignoring_ascii_case, split_lines, split_words,
    string_of, string_of_all, texts, words,
};
use crate::types::{CodeownersEntry, EntryView, Error, Owner, OwnerType, OwnerView, Tag};
use vstd::prelude::*;

verus! {

/// The word that declares a pattern to have no owner.
pub open spec fn no_owner_word() -> Seq<char> {
    seq!['n', 'o', 'o', 'w', 'n', 'e', 'r']
}

/// How often `c` occurs in `text`.
pub open spec fn occurrences(text: Seq<char>, c: char) -> nat
    decreases text.len(),
{
    if text.len() == 0 {
        0
    } else {
        occurrences(text.drop_last(), c) + if text.last() == c {
            1nat
        } else {
            0nat
        }
    }
}

/// The category of an owner identifier.
pub open spec fn owner_kind(identifier: Seq<char>) -> OwnerType {
    if same_ignoring_ascii_case(identifier, no_owner_word()) {
        OwnerType::Unowned
    } else if identifier.len() > 0 && identifier[0] == '@' {
        if occurrences(identifier.skip(1), '/') == 1 {
            OwnerType::Team
        } else {
            OwnerType::User
        }
    } else if identifier.contains('@') {
        OwnerType::Email
    } else {
        OwnerType::Unknown
    }
}

/// The owner that an identifier stands for.
pub open spec fn parsed_owner(identifier: Seq<char>) -> OwnerView {
    OwnerView { identifier, owner_type: owner_kind(identifier) }
}

/// Whether a word begins with `#`.
pub open spec fn is_marked(word: Seq<char>) -> bool {
    word.len() > 0 && word[0] == '#'
}

/// The place of the first marked word at or after `from`, or the number of
/// words where there is none.
pub open spec fn owners_end(line: Seq<Seq<char>>, from: int) -> int
    decreases line.len() - from,
{
    if from < 0 || from >= line.len() {
        line.len() as int
    } else if is_marked(line[from]) {
        from
    } else {
        owners_end(line, from + 1)
    }
}

/// Whether the word at `at` is a tag: it is marked, it is more than the mark,
/// and the word after it, if any, is marked too. A marked word before an
/// unmarked one opens the comment.
pub open spec fn is_tag_at(line: Seq<Seq<char>>, at: int) -> bool {
    &&& 0 <= at < line.len()
    &&& is_marked(line[at])
    &&& line[at].len() > 1
    &&& (at + 1 < line.len() ==> is_marked(line[at + 1]))
}

/// The place after the last of the tags that begin at `from`.
pub open spec fn tags_end(line: Seq<Seq<char>>, from: int) -> int
    decreases line.len() - from,
{
    if is_tag_at(line, from) {
        tags_end(line, from + 1)
    } else {
        from
    }
}

/// What a line declares.
pub open spec fn parsed_line(line: Seq<char>, line_number: nat, source_file: Seq<char>) -> Option<
    EntryView,
> {
    let all = words(line);
    if all.len() == 0 || is_marked(all[0]) {
        None
    } else {
        let tags_from = owners_end(all, 1);
        let tags_to = tags_end(all, tags_from);
        Some(
            EntryView {
                source_file,
                line_number,
                pattern: all[0],
                owners: all.subrange(1, tags_from).map_values(|word: Seq<char>| parsed_owner(word)),
                tags: all.subrange(tags_from, tags_to).map_values(|word: Seq<char>| word.skip(1)),
            },
        )
    }
}

/// The entries that the lines declare, the first line being line 1.
pub open spec fn parsed_lines(rows: Seq<Seq<char>>, source_file: Seq<char>) -> Seq<EntryView>
    decreases rows.len(),
{
    if rows.len() == 0 {
        Seq::empty()
    } else {
        let before = parsed_lines(rows.drop_last(), source_file);
        match parsed_line(rows.last(), rows.len(), source_file) {
            Some(entry) => before.push(entry),
            None => before,
        }
    }
}

/// The entries that the text of a declaration file declares.
pub open spec fn parsed_file(content: Seq<char>, source_file: Seq<char>) -> Seq<EntryView> {
    parsed_lines(lines(content), source_file)
}

/// Whether the identifier is the word for "no owner", in any case.
fn is_no_owner(chars: &Vec<char>) -> (same: bool)
    ensures
        same == same_ignoring_ascii_case(chars@, no_owner_word()),
{
    let mut word: Vec<char> = Vec::new();
    word.push('n');
    word.push('o');
    word.push('o');
    word.push('w');
    word.push('n');
    word.push('e');
    word.push('r');
    assert(word@ =~= no_owner_word());
    same_but_for_case(chars, &word)
}

/// Counts the occurrences of `c` in `chars[from..]`.
fn count_from(chars: &Vec<char>, from: usize, c: char) -> (count: usize)
    requires
        from <= chars.len(),
    ensures
        count == occurrences(chars@.skip(from as int), c),
{
    let ghost tail = chars@.skip(from as int);
    let mut count: usize = 0;
    let mut i: usize = from;
    assert(tail.take(0) =~= Seq::<char>::empty());
    while i < chars.len()
        invariant
            from <= i <= chars.len(),
            tail == chars@.skip(from as int),
            count == occurrences(tail.take(i - from), c),
            count <= i - from,
        decreases chars.len() - i,
    {
        proof {
            assert(tail.take(i - from + 1).drop_last() =~= tail.take(i - from));
            assert(tail.take(i - from + 1).last() == chars@[i as int]);
        }
        if chars[i] == c {
            count += 1;
        }
        i += 1;
    }
    assert(tail.take(chars.len() - from) =~= tail);
    count
}

/// Whether `c` occurs in `chars`.
fn has_char(chars: &Vec<char>, c: char) -> (found: bool)
    ensures
        found == chars@.contains(c),
{
    let mut i: usize = 0;
    while i < chars.len()
        invariant
            i <= chars.len(),
            forall|j: int| 0 <= j < i ==> chars@[j] != c,
        decreases chars.len() - i,
    {
        if chars[i] == c {
            return true;
        }
        i += 1;
    }
    false
}

/// The owner that the characters of an identifier stand for.
fn owner_of(chars: &Vec<char>) -> (owner: Owner)
    ensures
        owner@ == parsed_owner(chars@),
{
    let owner_type = if is_no_owner(chars) {
        OwnerType::Unowned
    } else if chars.len() > 0 && chars[0] == '@' {
        if count_from(chars, 1, '/') == 1 {
            OwnerType::Team
        } else {
            OwnerType::User
        }
    } else if has_char(chars, '@') {
        OwnerType::Email
    } else {
        OwnerType::Unknown
    };
    Owner { identifier: string_of_all(chars), owner_type }
}

/// Classifies an owner identifier. Every identifier has a category, so this
/// always succeeds.
pub fn parse_owner(owner_str: &str) -> (parsed: Result<Owner, Error>)
    ensures
        parsed matches Ok(owner) && owner@ == parsed_owner(owner_str@),
{
    let chars = chars_of(owner_str);
    Ok(owner_of(&chars))
}

/// Whether the word begins with `#`.
fn marked(word: &Vec<char>) -> (yes: bool)
    ensures
        yes == is_marked(word@),
{
    word.len() > 0 && word[0] == '#'
}

/// Reads one line of a declaration file. A line that declares nothing gives
/// `None`; no line is an error.
pub fn parse_line(line: &str, line_num: usize, source_path: &str) -> (parsed: Result<
    Option<CodeownersEntry>,
    Error,
>)
    ensures
        parsed is Ok,
        parsed matches Ok(Some(entry)) ==> parsed_line(line@, line_num as nat, source_path@)
            == Some(entry@),
        parsed matches Ok(None) ==> parsed_line(line@, line_num as nat, source_path@) is None,
{
    let chars = chars_of(line);
    let all = split_words(&chars);
    let ghost row = texts(all@);
    let n = all.len();
    if n == 0 || marked(&all[0]) {
        return Ok(None);
    }
    let mut owners: Vec<Owner> = Vec::new();
    let mut i: usize = 1;
    assert(owners.deep_view() =~= row.subrange(1, 1).map_values(
        |word: Seq<char>| parsed_owner(word),
    ));
    while i < n && !marked(&all[i])
        invariant
            n == all.len(),
            row == texts(all@),
            1 <= i <= n,
            owners_end(row, 1) == owners_end(row, i as int),
            owners.deep_view() == row.subrange(1, i as int).map_values(
                |word: Seq<char>| parsed_owner(word),
            ),
        decreases n - i,
    {
        let ghost before = owners.deep_view();
        owners.push(owner_of(&all[i]));
        i += 1;
        assert(owners.deep_view() =~= before.push(parsed_owner(row[i - 1])));
        assert(row.subrange(1, i as int) =~= row.subrange(1, i - 1).push(row[i - 1]));
        assert(owners.deep_view() =~= row.subrange(1, i as int).map_values(
            |word: Seq<char>| parsed_owner(word),
        ));
    }
    let tags_from = i;
    assert(tags_from == owners_end(row, 1));
    let mut tags: Vec<Tag> = Vec::new();
    assert(tags.deep_view() =~= row.subrange(tags_from as int, i as int).map_values(
        |word: Seq<char>| word.skip(1),
    ));
    while i < n
        invariant
            n == all.len(),
            row == texts(all@),
            tags_from <= i <= n,
            tags_end(row, tags_from as int) == tags_end(row, i as int),
            tags.deep_view() == row.subrange(tags_from as int, i as int).map_values(
                |word: Seq<char>| word.skip(1),
            ),
        ensures
            tags_from <= i <= n,
            tags_end(row, tags_from as int) == i,
            tags.deep_view() == row.subrange(tags_from as int, i as int).map_values(
                |word: Seq<char>| word.skip(1),
            ),
        decreases n - i,
    {
        let word = &all[i];
        if !marked(word) || word.len() == 1 {
            break;
        }
        if i + 1 < n && !marked(&all[i + 1]) {
            break;
        }
        let ghost before = tags.deep_view();
        let name = string_of(word, 1, word.len());
        assert(name@ =~= word@.skip(1));
        tags.push(Tag(name));
        i += 1;
        assert(tags.deep_view() =~= before.push(row[i - 1].skip(1)));
        assert(row.subrange(tags_from as int, i as int) =~= row.subrange(
            tags_from as int,
            i - 1,
        ).push(row[i - 1]));
        assert(tags.deep_view() =~= row.subrange(tags_from as int, i as int).map_values(
            |word: Seq<char>| word.skip(1),
        ));
    }
    Ok(
        Some(
            CodeownersEntry {
                source_file: source_path.to_owned(),
                line_number: line_num,
                pattern: string_of_all(&all[0]),
                owners,
                tags,
            },
        ),
    )
}

/// Reads the text of a declaration file: the entries that its lines declare,
/// in their order, each with the number of its line, counted from 1.
pub fn parse_codeowners(content: &str, source_path: &str) -> (entries: Vec<CodeownersEntry>)
    ensures
        entries.deep_view() == parsed_file(content@, source_path@),
{
    let chars = chars_of(content);
    let rows = split_lines(&chars);
    let ghost all = texts(rows@);
    let mut entries: Vec<CodeownersEntry> = Vec::new();
    let n = rows.len();
    let mut i: usize = 0;
    proof {
        assert(all.take(0) =~= Seq::<Seq<char>>::empty());
        assert(entries.deep_view() =~= parsed_lines(all.take(0), source_path@));
    }
    while i < n
        invariant
            n == rows.len(),
            i <= n,
            all == texts(rows@),
            entries.deep_view() == parsed_lines(all.take(i as int), source_path@),
        decreases n - i,
    {
        let ghost before = entries.deep_view();
        proof {
            assert(all.take(i + 1).drop_last() =~= all.take(i as int));
            assert(all.take(i + 1).last() == rows@[i as int]@);
        }
        let line = string_of_all(&rows[i]);
        match parse_line(line.as_str(), i + 1, source_path) {
            Ok(Some(entry)) => {
                entries.push(entry);
                assert(entries.deep_view() =~= before.push(entry@));
            },
            _ => {},
        }
        i += 1;
    }
    assert(all.take(n as int) =~= all);
    entries
}

} // verus!
