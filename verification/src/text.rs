//! Small verified helpers on strings and characters.

use vstd::prelude::*;

verus! {

/// `String::push` appends one character to the end of the string.
pub assume_specification[ String::push ](s: &mut String, c: char)
    ensures
        final(s)@ == old(s)@.push(c),
;

/// The characters of a string, in order.
pub fn chars_of(s: &str) -> (chars: Vec<char>)
    ensures
        chars@ == s@,
{
    let mut chars: Vec<char> = Vec::new();
    for c in it: s.chars()
        invariant
            chars@ == s@.take(it.index() as int),
            it.seq() == s@,
    {
        chars.push(c);
    }
    chars
}

/// The string made of `chars[from..to]`.
pub fn string_of(chars: &Vec<char>, from: usize, to: usize) -> (s: String)
    requires
        from <= to <= chars.len(),
    ensures
        s@ == chars@.subrange(from as int, to as int),
{
    let mut s = String::new();
    let mut i: usize = from;
    while i < to
        invariant
            from <= i <= to <= chars.len(),
            s@ == chars@.subrange(from as int, i as int),
        decreases to - i,
    {
        s.push(chars[i]);
        i += 1;
        assert(chars@.subrange(from as int, i as int) == chars@.subrange(from as int, i - 1).push(
            chars@[i - 1],
        ));
    }
    s
}

/// The string made of all of `chars`.
pub fn string_of_all(chars: &Vec<char>) -> (s: String)
    ensures
        s@ == chars@,
{
    let s = string_of(chars, 0, chars.len());
    assert(chars@.subrange(0, chars.len() as int) =~= chars@);
    s
}

/// Whether two character vectors hold the same text.
pub fn same_chars(a: &Vec<char>, b: &Vec<char>) -> (same: bool)
    ensures
        same == (a@ == b@),
{
    if a.len() != b.len() {
        return false;
    }
    let n = a.len();
    let mut i: usize = 0;
    while i < n
        invariant
            n == a.len(),
            n == b.len(),
            i <= n,
            forall|j: int| 0 <= j < i ==> a@[j] == b@[j],
        decreases n - i,
    {
        if a[i] != b[i] {
            return false;
        }
        i += 1;
    }
    assert(a@ =~= b@);
    true
}

/// The code of a character with an ASCII capital replaced by its small
/// letter.
pub open spec fn folded(c: char) -> int {
    let n = c as int;
    if 0x41 <= n <= 0x5A {
        n + 0x20
    } else {
        n
    }
}

/// Whether two texts are the same but for the case of their ASCII letters.
pub open spec fn same_ignoring_ascii_case(a: Seq<char>, b: Seq<char>) -> bool {
    a.len() == b.len() && forall|i: int| 0 <= i < a.len() ==> folded(a[i]) == folded(b[i])
}

/// The folded code of a character.
fn fold_case(c: char) -> (code: u32)
    ensures
        code == folded(c),
{
    let n: u32 = c as u32;
    if 0x41 <= n && n <= 0x5A {
        n + 0x20
    } else {
        n
    }
}

/// Whether two texts are the same but for the case of their ASCII letters.
pub fn same_but_for_case(a: &Vec<char>, b: &Vec<char>) -> (same: bool)
    ensures
        same == same_ignoring_ascii_case(a@, b@),
{
    if a.len() != b.len() {
        return false;
    }
    let mut i: usize = 0;
    while i < a.len()
        invariant
            i <= a.len(),
            a.len() == b.len(),
            forall|j: int| 0 <= j < i ==> folded(a@[j]) == folded(b@[j]),
        decreases a.len() - i,
    {
        if fold_case(a[i]) != fold_case(b[i]) {
            return false;
        }
        i += 1;
    }
    true
}

/// Appends `src[from..to]` to `dst`.
pub fn append_chars(dst: &mut Vec<char>, src: &Vec<char>, from: usize, to: usize)
    requires
        from <= to <= src.len(),
    ensures
        final(dst)@ == old(dst)@ + src@.subrange(from as int, to as int),
{
    let mut i: usize = from;
    assert(dst@ =~= old(dst)@ + src@.subrange(from as int, from as int));
    while i < to
        invariant
            from <= i <= to <= src.len(),
            dst@ == old(dst)@ + src@.subrange(from as int, i as int),
        decreases to - i,
    {
        dst.push(src[i]);
        i += 1;
        assert(dst@ =~= old(dst)@ + src@.subrange(from as int, i as int));
    }
}

/// The texts that a vector of character vectors stands for.
pub open spec fn texts(rows: Seq<Vec<char>>) -> Seq<Seq<char>> {
    Seq::new(rows.len(), |i: int| rows[i]@)
}

/// Whether a character is white space: a character with the Unicode property
/// `White_Space`.
pub open spec fn is_space(c: char) -> bool {
    let n = c as int;
    ||| 0x09 <= n <= 0x0D
    ||| n == 0x20
    ||| n == 0x85
    ||| n == 0xA0
    ||| n == 0x1680
    ||| 0x2000 <= n <= 0x200A
    ||| n == 0x2028
    ||| n == 0x2029
    ||| n == 0x202F
    ||| n == 0x205F
    ||| n == 0x3000
}

/// Whether a character is white space.
pub fn is_whitespace(c: char) -> (space: bool)
    ensures
        space == is_space(c),
{
    let n: u32 = c as u32;
    (0x09 <= n && n <= 0x0D) || n == 0x20 || n == 0x85 || n == 0xA0 || n == 0x1680 || (0x2000 <= n
        && n <= 0x200A) || n == 0x2028 || n == 0x2029 || n == 0x202F || n == 0x205F || n == 0x3000
}

/// What separates the pieces of a text.
#[derive(Debug, Clone, Copy)]
pub enum Separator {
    /// One given character.
    Char(char),
    /// Any white space character.
    Whitespace,
}

/// Whether `c` separates.
pub open spec fn separates(separator: Separator, c: char) -> bool {
    match separator {
        Separator::Char(s) => c == s,
        Separator::Whitespace => is_space(c),
    }
}

/// The pieces of `text` between its separators, empty ones included: a text
/// with `n` separators has `n + 1` pieces.
pub open spec fn pieces(text: Seq<char>, separator: Separator) -> Seq<Seq<char>>
    decreases text.len(),
{
    if text.len() == 0 {
        seq![Seq::empty()]
    } else {
        let before = pieces(text.drop_last(), separator);
        if separates(separator, text.last()) {
            before.push(Seq::empty())
        } else {
            before.drop_last().push(before.last().push(text.last()))
        }
    }
}

/// The words of `text`: its pieces between white space that are not empty.
pub open spec fn words(text: Seq<char>) -> Seq<Seq<char>> {
    pieces(text, Separator::Whitespace).filter(|piece: Seq<char>| piece.len() > 0)
}

/// The lines of `text`: its pieces between line feeds, without the empty
/// piece that follows a final line feed.
pub open spec fn lines(text: Seq<char>) -> Seq<Seq<char>> {
    let all = pieces(text, Separator::Char('\n'));
    if all.last().len() == 0 {
        all.drop_last()
    } else {
        all
    }
}

/// Splits `chars` into its pieces.
pub fn split_pieces(chars: &Vec<char>, separator: Separator) -> (rows: Vec<Vec<char>>)
    ensures
        texts(rows@) == pieces(chars@, separator),
        rows.len() >= 1,
{
    let n = chars.len();
    let mut rows: Vec<Vec<char>> = Vec::new();
    let mut current: Vec<char> = Vec::new();
    let mut i: usize = 0;
    proof {
        assert(chars@.take(0) =~= Seq::<char>::empty());
        assert(texts(rows@).push(current@) =~= pieces(chars@.take(0), separator));
    }
    while i < n
        invariant
            n == chars.len(),
            i <= n,
            texts(rows@).push(current@) == pieces(chars@.take(i as int), separator),
        decreases n - i,
    {
        let c = chars[i];
        let ghost closed = texts(rows@);
        proof {
            assert(chars@.take(i + 1).drop_last() =~= chars@.take(i as int));
            assert(chars@.take(i + 1).last() == c);
            assert(closed.push(current@).drop_last() =~= closed);
        }
        let cut = match separator {
            Separator::Char(s) => c == s,
            Separator::Whitespace => is_whitespace(c),
        };
        if cut {
            let done = current;
            current = Vec::new();
            rows.push(done);
            assert(texts(rows@) =~= closed.push(done@));
        } else {
            current.push(c);
        }
        i += 1;
    }
    let ghost closed = texts(rows@);
    assert(chars@.take(n as int) =~= chars@);
    rows.push(current);
    assert(texts(rows@) =~= closed.push(current@));
    rows
}

/// Splits `chars` into its words.
pub fn split_words(chars: &Vec<char>) -> (found: Vec<Vec<char>>)
    ensures
        texts(found@) == words(chars@),
{
    let rows = split_pieces(chars, Separator::Whitespace);
    let ghost all = texts(rows@);
    let ghost full = |piece: Seq<char>| piece.len() > 0;
    let mut found: Vec<Vec<char>> = Vec::new();
    let n = rows.len();
    let mut i: usize = 0;
    proof {
        reveal(Seq::filter);
        assert(all.take(0) =~= Seq::<Seq<char>>::empty());
        assert(texts(found@) =~= all.take(0).filter(full));
    }
    while i < n
        invariant
            n == rows.len(),
            i <= n,
            all == texts(rows@),
            full == (|piece: Seq<char>| piece.len() > 0),
            texts(found@) == all.take(i as int).filter(full),
        decreases n - i,
    {
        let ghost before = texts(found@);
        proof {
            assert(all.take(i + 1) =~= all.take(i as int).push(all[i as int]));
            all.take(i as int).lemma_filter_push(all[i as int], full);
        }
        if rows[i].len() > 0 {
            found.push(rows[i].clone());
            assert(texts(found@) =~= before.push(rows@[i as int]@));
        }
        i += 1;
    }
    assert(all.take(n as int) =~= all);
    found
}

/// Splits `chars` into its lines.
pub fn split_lines(chars: &Vec<char>) -> (rows: Vec<Vec<char>>)
    ensures
        texts(rows@) == lines(chars@),
{
    let mut rows = split_pieces(chars, Separator::Char('\n'));
    let n = rows.len();
    let ghost all = texts(rows@);
    assert(all.last() == rows@[n - 1]@);
    if rows[n - 1].len() == 0 {
        rows.pop();
        assert(texts(rows@) =~= all.drop_last());
    }
    rows
}

} // verus!
