//! What a path text means: its components, its directory, and the order of
//! paths.
//!
//! A path is read the way Unix reads it. `/` separates the components; a
//! leading `/` is a component of its own, the root; empty segments and `.`
//! segments are left out, but for a `.` that opens a relative path. So
//! `/a//b/./c` has the components `/`, `a`, `b`, `c`, and `./a` has `.`, `a`.

use crate::text::{chars_of, pieces, same_chars, split_pieces, string_of, texts, Separator};
use vstd::prelude::*;

verus! {

/// The root component.
pub open spec fn root_part() -> Seq<char> {
    seq!['/']
}

/// The component that stands for the current directory.
pub open spec fn dot_part() -> Seq<char> {
    seq!['.']
}

/// A segment that names something: neither empty nor `.`.
pub open spec fn is_name(segment: Seq<char>) -> bool {
    segment.len() > 0 && segment != dot_part()
}

/// Whether `text` is relative and opens with a `.` segment.
pub open spec fn opens_with_dot(text: Seq<char>) -> bool {
    text.len() >= 1 && text[0] == '.' && (text.len() == 1 || text[1] == '/')
}

/// What opens the components of `text`: the root, a leading `.`, or nothing.
pub open spec fn leading_parts(text: Seq<char>) -> Seq<Seq<char>> {
    if text.len() >= 1 && text[0] == '/' {
        seq![root_part()]
    } else if opens_with_dot(text) {
        seq![dot_part()]
    } else {
        Seq::empty()
    }
}

/// The components of a path.
pub open spec fn components(text: Seq<char>) -> Seq<Seq<char>> {
    leading_parts(text) + pieces(text, Separator::Char('/')).filter(
        |segment: Seq<char>| is_name(segment),
    )
}

/// The directory that holds the path: its components without the last one.
/// The empty path and the root have none.
pub open spec fn directory(text: Seq<char>) -> Option<Seq<Seq<char>>> {
    let parts = components(text);
    if parts.len() == 0 || parts.last() == root_part() {
        None
    } else {
        Some(parts.drop_last())
    }
}

/// Where the body of a path begins: after the root, or after the `.` that
/// opens a relative path.
pub open spec fn body_start(text: Seq<char>) -> int {
    if text.len() >= 1 && (text[0] == '/' || opens_with_dot(text)) {
        1
    } else {
        0
    }
}

/// Where the last segment of `text[from..upto]` begins: after its last `/`,
/// or at `from` where it has none.
pub open spec fn last_segment_start(text: Seq<char>, from: int, upto: int) -> int
    decreases upto - from,
{
    if upto <= from {
        from
    } else if text[upto - 1] == '/' {
        upto
    } else {
        last_segment_start(text, from, upto - 1)
    }
}

/// The end of `text[from..upto]` without the segments at its end that name
/// nothing, and without the separators before them.
pub open spec fn without_trailing(text: Seq<char>, from: int, upto: int) -> int
    decreases upto - from,
{
    if upto <= from {
        from
    } else {
        let at = last_segment_start(text, from, upto);
        if at < upto && is_name(text.subrange(at, upto)) {
            upto
        } else if from < at <= upto {
            without_trailing(text, from, at - 1)
        } else {
            from
        }
    }
}

/// How much of a path text is the text of its directory. The text is cut
/// before its last component, and what then stands at the end and names
/// nothing is cut too; the root or an opening `.` is never cut into, but
/// that a path which is the `.` alone has the empty directory.
pub open spec fn parent_len(text: Seq<char>) -> int {
    let from = body_start(text);
    let end = without_trailing(text, from, text.len() as int);
    if end <= from {
        if opens_with_dot(text) {
            0
        } else {
            from
        }
    } else {
        let at = last_segment_start(text, from, end);
        if from < at {
            without_trailing(text, from, at - 1)
        } else {
            from
        }
    }
}

/// The text of the directory of a path, as it stands in the text of the
/// path: `/a//b/c.rs` lies in `/a//b`. For a path without a directory this
/// is what opens the path.
pub open spec fn parent_text(text: Seq<char>) -> Seq<char> {
    text.take(parent_len(text))
}

/// Splits a path text into its components.
pub fn path_components(text: &str) -> (parts: Vec<Vec<char>>)
    ensures
        texts(parts@) == components(text@),
{
    let chars = chars_of(text);
    let n = chars.len();
    let mut parts: Vec<Vec<char>> = Vec::new();
    if n >= 1 && chars[0] == '/' {
        let mut root: Vec<char> = Vec::new();
        root.push('/');
        assert(root@ =~= root_part());
        parts.push(root);
    } else if n >= 1 && chars[0] == '.' && (n == 1 || chars[1] == '/') {
        let mut dot: Vec<char> = Vec::new();
        dot.push('.');
        assert(dot@ =~= dot_part());
        parts.push(dot);
    }
    assert(texts(parts@) =~= leading_parts(text@));
    let rows = split_pieces(&chars, Separator::Char('/'));
    let ghost all = texts(rows@);
    let ghost keep = |segment: Seq<char>| is_name(segment);
    let count = rows.len();
    let mut i: usize = 0;
    proof {
        reveal(Seq::filter);
        assert(all.take(0) =~= Seq::<Seq<char>>::empty());
        assert(texts(parts@) =~= leading_parts(text@) + all.take(0).filter(keep));
    }
    while i < count
        invariant
            count == rows.len(),
            i <= count,
            all == texts(rows@),
            keep == (|segment: Seq<char>| is_name(segment)),
            texts(parts@) == leading_parts(text@) + all.take(i as int).filter(keep),
        decreases count - i,
    {
        let row = &rows[i];
        let ghost before = texts(parts@);
        proof {
            assert(all.take(i + 1) =~= all.take(i as int).push(all[i as int]));
            all.take(i as int).lemma_filter_push(all[i as int], keep);
            assert(all[i as int] == row@);
        }
        if row.len() > 0 && !(row.len() == 1 && row[0] == '.') {
            proof {
                if row@ == dot_part() {
                    assert(row@.len() == 1 && row@[0] == '.');
                }
            }
            parts.push(row.clone());
            assert(texts(parts@) =~= before.push(row@));
        } else {
            proof {
                if row.len() > 0 {
                    assert(row@ =~= dot_part());
                }
            }
        }
        i += 1;
    }
    assert(all.take(count as int) =~= all);
    parts
}

/// Whether a component is the root.
pub fn is_root_part(part: &Vec<char>) -> (root: bool)
    ensures
        root == (part@ == root_part()),
{
    let root = part.len() == 1 && part[0] == '/';
    proof {
        if root {
            assert(part@ =~= root_part());
        }
        if part@ == root_part() {
            assert(part@.len() == 1 && part@[0] == '/');
        }
    }
    root
}

/// The directory of a path, as components.
pub fn directory_of(text: &str) -> (dir: Option<Vec<Vec<char>>>)
    ensures
        dir is Some <==> directory(text@) is Some,
        dir matches Some(d) ==> directory(text@) == Some(texts(d@)),
{
    let mut parts = path_components(text);
    let n = parts.len();
    if n == 0 {
        return None;
    }
    assert(texts(parts@).last() == parts@[n - 1]@);
    if is_root_part(&parts[n - 1]) {
        return None;
    }
    let ghost was = parts@;
    parts.pop();
    assert(texts(parts@) =~= texts(was).drop_last());
    Some(parts)
}

/// Whether the first `count` components of `parts` are `target` or one of its
/// ancestors.
pub(crate) fn leads_to(parts: &Vec<Vec<char>>, count: usize, target: &Vec<Vec<char>>) -> (within: bool)
    requires
        count <= parts.len(),
    ensures
        within == texts(parts@).take(count as int).is_prefix_of(texts(target@)),
{
    let ghost dir = texts(parts@).take(count as int);
    let ghost goal = texts(target@);
    if count > target.len() {
        return false;
    }
    let mut i: usize = 0;
    while i < count
        invariant
            count <= parts.len(),
            count <= target.len(),
            i <= count,
            dir == texts(parts@).take(count as int),
            goal == texts(target@),
            forall|j: int| 0 <= j < i ==> parts@[j]@ == target@[j]@,
        decreases count - i,
    {
        if !same_chars(&parts[i], &target[i]) {
            proof {
                if dir.is_prefix_of(goal) {
                    assert(dir[i as int] == goal.subrange(0, dir.len() as int)[i as int]);
                }
            }
            return false;
        }
        i += 1;
    }
    assert(dir =~= goal.subrange(0, count as int));
    true
}

/// Where the last segment of `chars[from..upto]` begins.
fn segment_start(chars: &Vec<char>, from: usize, upto: usize) -> (at: usize)
    requires
        from <= upto <= chars.len(),
    ensures
        at == last_segment_start(chars@, from as int, upto as int),
        from <= at <= upto,
{
    let mut at: usize = upto;
    while at > from && chars[at - 1] != '/'
        invariant
            from <= at <= upto <= chars.len(),
            last_segment_start(chars@, from as int, upto as int) == last_segment_start(
                chars@,
                from as int,
                at as int,
            ),
        decreases at,
    {
        at -= 1;
    }
    at
}

/// The end of `chars[from..upto]` without what names nothing at its end.
fn trim_trailing(chars: &Vec<char>, from: usize, upto: usize) -> (end: usize)
    requires
        from <= upto <= chars.len(),
    ensures
        end == without_trailing(chars@, from as int, upto as int),
        from <= end <= upto,
{
    let mut end: usize = upto;
    while end > from
        invariant
            from <= end <= upto <= chars.len(),
            without_trailing(chars@, from as int, upto as int) == without_trailing(
                chars@,
                from as int,
                end as int,
            ),
        decreases end,
    {
        let at = segment_start(chars, from, end);
        let ghost segment = chars@.subrange(at as int, end as int);
        let named = at < end && !(end - at == 1 && chars[at] == '.');
        proof {
            if at < end {
                assert(segment[0] == chars@[at as int]);
                if segment == dot_part() {
                    assert(segment.len() == 1 && segment[0] == '.');
                }
                if end - at == 1 && chars@[at as int] == '.' {
                    assert(segment =~= dot_part());
                }
            }
            assert(named == (at < end && is_name(segment)));
        }
        if named {
            return end;
        }
        if at > from {
            end = at - 1;
        } else {
            end = from;
        }
    }
    end
}

/// The text of the directory of a path, as it stands in the text of the
/// path. Where the path has a directory, the text has its components.
pub fn parent_of(text: &str) -> (parent: String)
    ensures
        parent@ == parent_text(text@),
        directory(text@) is Some ==> components(parent@) == directory(text@)->0,
{
    proof {
        lemma_parent_text_is_the_directory(text@);
    }
    let chars = chars_of(text);
    let n = chars.len();
    let dotted = n >= 1 && chars[0] == '.' && (n == 1 || chars[1] == '/');
    let from: usize = if n >= 1 && (chars[0] == '/' || dotted) {
        1
    } else {
        0
    };
    let end = trim_trailing(&chars, from, n);
    let len = if end <= from {
        if dotted {
            0
        } else {
            from
        }
    } else {
        let at = segment_start(&chars, from, end);
        if from < at {
            trim_trailing(&chars, from, at - 1)
        } else {
            from
        }
    };
    let parent = string_of(&chars, 0, len);
    assert(chars@.subrange(0, len as int) =~= text@.take(len as int));
    parent
}

/// The segments of a path text that name something.
pub open spec fn names_of(text: Seq<char>) -> Seq<Seq<char>> {
    pieces(text, Separator::Char('/')).filter(|segment: Seq<char>| is_name(segment))
}

/// The last segment of `text[from..upto]` holds no `/`, and where it does
/// not begin at `from`, a `/` stands before it.
proof fn lemma_last_segment(text: Seq<char>, from: int, upto: int)
    requires
        0 <= from <= upto <= text.len(),
    ensures
        from <= last_segment_start(text, from, upto) <= upto,
        forall|j: int| last_segment_start(text, from, upto) <= j < upto ==> text[j] != '/',
        last_segment_start(text, from, upto) > from ==> {
            &&& text[last_segment_start(text, from, upto) - 1] == '/'
            &&& last_segment_start(text, 0, upto) == last_segment_start(text, from, upto)
        },
    decreases upto - from,
{
    if upto > from && text[upto - 1] != '/' {
        lemma_last_segment(text, from, upto - 1);
    }
}

/// The pieces of the first `n` characters end with the last segment, and
/// before it stand the pieces of what precedes its separator.
proof fn lemma_pieces_of_prefix(text: Seq<char>, n: int)
    requires
        0 <= n <= text.len(),
    ensures
        ({
            let at = last_segment_start(text, 0, n);
            let rows = pieces(text.take(n), Separator::Char('/'));
            &&& rows.len() >= 1
            &&& 0 <= at <= n
            &&& rows.last() == text.subrange(at, n)
            &&& at > 0 ==> rows.drop_last() == pieces(text.take(at - 1), Separator::Char('/'))
            &&& at == 0 ==> rows.len() == 1
        }),
    decreases n,
{
    let separator = Separator::Char('/');
    let at = last_segment_start(text, 0, n);
    let rows = pieces(text.take(n), separator);
    lemma_last_segment(text, 0, n);
    if n == 0 {
        assert(rows.last() =~= text.subrange(at, n));
    } else {
        lemma_pieces_of_prefix(text, n - 1);
        let before = pieces(text.take(n - 1), separator);
        assert(text.take(n).drop_last() =~= text.take(n - 1));
        assert(text.take(n).last() == text[n - 1]);
        if text[n - 1] == '/' {
            assert(rows == before.push(Seq::empty()));
            assert(rows.last() =~= text.subrange(at, n));
            assert(rows.drop_last() =~= before);
        } else {
            assert(rows == before.drop_last().push(before.last().push(text[n - 1])));
            assert(rows.last() =~= text.subrange(at, n));
            assert(rows.drop_last() =~= before.drop_last());
        }
    }
}

/// The names of the first `n` characters, where a `/` stands before their
/// last segment: the names before that `/`, and the segment if it is a name.
proof fn lemma_names_of_prefix(text: Seq<char>, n: int)
    requires
        0 <= n <= text.len(),
        last_segment_start(text, 0, n) > 0,
    ensures
        ({
            let at = last_segment_start(text, 0, n);
            let segment = text.subrange(at, n);
            names_of(text.take(n)) == if is_name(segment) {
                names_of(text.take(at - 1)).push(segment)
            } else {
                names_of(text.take(at - 1))
            }
        }),
{
    let keep = |segment: Seq<char>| is_name(segment);
    let rows = pieces(text.take(n), Separator::Char('/'));
    lemma_pieces_of_prefix(text, n);
    assert(rows =~= rows.drop_last().push(rows.last()));
    rows.drop_last().lemma_filter_push(rows.last(), keep);
}

/// What opens a path names nothing.
proof fn lemma_no_names_at_body_start(text: Seq<char>)
    ensures
        0 <= body_start(text) <= text.len(),
        names_of(text.take(body_start(text))) == Seq::<Seq<char>>::empty(),
{
    let keep = |segment: Seq<char>| is_name(segment);
    let none = Seq::<Seq<char>>::empty();
    let from = body_start(text);
    let rows = pieces(text.take(from), Separator::Char('/'));
    lemma_pieces_of_prefix(text, from);
    assert(none.filter(keep) =~= none) by {
        reveal(Seq::filter);
    }
    if from == 0 {
        assert(rows =~= none.push(rows.last()));
        none.lemma_filter_push(rows.last(), keep);
    } else if text[0] == '/' {
        lemma_pieces_of_prefix(text, 0);
        let first = pieces(text.take(0), Separator::Char('/'));
        assert(first =~= none.push(first.last()));
        none.lemma_filter_push(first.last(), keep);
        assert(rows =~= first.push(rows.last()));
        first.lemma_filter_push(rows.last(), keep);
    } else {
        assert(last_segment_start(text, 0, 0) == 0);
        assert(rows =~= none.push(rows.last()));
        assert(rows.last() =~= dot_part());
        none.lemma_filter_push(rows.last(), keep);
    }
}

/// The names of the first `n` characters where no `/` stands in the body
/// before them: the one segment of the body, if it is a name.
proof fn lemma_names_of_first_segment(text: Seq<char>, n: int)
    requires
        body_start(text) < n <= text.len(),
        last_segment_start(text, body_start(text), n) == body_start(text),
    ensures
        !opens_with_dot(text),
        ({
            let segment = text.subrange(body_start(text), n);
            names_of(text.take(n)) == if is_name(segment) {
                seq![segment]
            } else {
                Seq::<Seq<char>>::empty()
            }
        }),
{
    let keep = |segment: Seq<char>| is_name(segment);
    let none = Seq::<Seq<char>>::empty();
    let from = body_start(text);
    let rows = pieces(text.take(n), Separator::Char('/'));
    lemma_last_segment(text, from, n);
    lemma_last_segment(text, 0, n);
    lemma_pieces_of_prefix(text, n);
    lemma_no_names_at_body_start(text);
    assert(none.filter(keep) =~= none) by {
        reveal(Seq::filter);
    }
    if opens_with_dot(text) {
        assert(text[1] == '/');
    }
    if from == 0 {
        let at = last_segment_start(text, 0, n);
        if at > 0 {
            assert(text[at - 1] == '/');
        }
        assert(rows =~= none.push(rows.last()));
        none.lemma_filter_push(rows.last(), keep);
        assert(names_of(text.take(n)) =~= if is_name(rows.last()) {
            seq![rows.last()]
        } else {
            none
        });
    } else {
        let at = last_segment_start(text, 0, n);
        assert(at == 1) by {
            if at > 1 {
                assert(text[at - 1] == '/');
            }
            if at == 0 {
                assert(text[0] != '/');
            }
        }
        lemma_names_of_prefix(text, n);
        assert(text.take(0) =~= text.take(from).take(0));
        lemma_pieces_of_prefix(text, 0);
        let first = pieces(text.take(0), Separator::Char('/'));
        assert(first =~= none.push(first.last()));
        none.lemma_filter_push(first.last(), keep);
        assert(names_of(text.take(0)) =~= none);
        assert(names_of(text.take(n)) =~= if is_name(text.subrange(1, n)) {
            seq![text.subrange(1, n)]
        } else {
            none
        });
    }
}

/// Cutting what names nothing from the end changes no name, and what is
/// left ends with a name or is what opens the path.
proof fn lemma_without_trailing(text: Seq<char>, n: int)
    requires
        body_start(text) <= n <= text.len(),
    ensures
        ({
            let from = body_start(text);
            let end = without_trailing(text, from, n);
            &&& from <= end <= n
            &&& names_of(text.take(end)) == names_of(text.take(n))
            &&& end > from ==> {
                &&& last_segment_start(text, from, end) < end
                &&& is_name(text.subrange(last_segment_start(text, from, end), end))
            }
        }),
    decreases n,
{
    let from = body_start(text);
    if n > from {
        let at = last_segment_start(text, from, n);
        lemma_last_segment(text, from, n);
        if at < n && is_name(text.subrange(at, n)) {
        } else if from < at {
            lemma_without_trailing(text, at - 1);
            lemma_names_of_prefix(text, n);
            if at == n {
                assert(text.subrange(at, n).len() == 0);
            }
        } else {
            lemma_names_of_first_segment(text, n);
            lemma_no_names_at_body_start(text);
        }
    }
}

/// The text of the directory has the components of the directory: the set
/// of an entry is made for the very directory that decides where the entry
/// applies.
pub proof fn lemma_parent_text_is_the_directory(text: Seq<char>)
    ensures
        0 <= parent_len(text) <= text.len(),
        directory(text) is Some ==> components(parent_text(text)) == directory(text)->0,
{
    let from = body_start(text);
    let len = text.len() as int;
    let none = Seq::<Seq<char>>::empty();
    lemma_no_names_at_body_start(text);
    lemma_without_trailing(text, len);
    let end = without_trailing(text, from, len);
    assert(text.take(len) =~= text);
    assert(components(text) == leading_parts(text) + names_of(text));
    if end <= from {
        assert(names_of(text) =~= none);
        if opens_with_dot(text) {
            assert(text.take(0) =~= Seq::<char>::empty());
            lemma_pieces_of_prefix(text, 0);
            assert(names_of(text.take(0)) =~= none) by {
                let keep = |segment: Seq<char>| is_name(segment);
                let first = pieces(text.take(0), Separator::Char('/'));
                assert(none.filter(keep) =~= none) by {
                    reveal(Seq::filter);
                }
                assert(first =~= none.push(first.last()));
                none.lemma_filter_push(first.last(), keep);
            }
            assert(components(text.take(0)) =~= none);
            assert(components(text).drop_last() =~= none);
        } else {
            assert(components(text) =~= leading_parts(text));
        }
    } else {
        let at = last_segment_start(text, from, end);
        let segment = text.subrange(at, end);
        lemma_last_segment(text, from, end);
        assert(segment != root_part()) by {
            if segment == root_part() {
                assert(segment[0] == '/');
                assert(text[at] == '/');
            }
        }
        if from < at {
            lemma_names_of_prefix(text, end);
            lemma_without_trailing(text, at - 1);
            let cut = without_trailing(text, from, at - 1);
            let kept = text.take(cut);
            assert(names_of(text) == names_of(kept).push(segment));
            assert(leading_parts(kept) == leading_parts(text)) by {
                if from == 1 {
                    assert(kept[0] == text[0]);
                    if cut >= 2 {
                        assert(kept[1] == text[1]);
                    }
                } else if cut > 0 {
                    assert(kept[0] == text[0]);
                    let inner = last_segment_start(text, from, cut);
                    lemma_last_segment(text, from, cut);
                    if cut == 1 {
                        assert(text.subrange(inner, cut) =~= dot_part() || text[0] != '.') by {
                            if text[0] == '.' {
                                assert(inner == 0);
                                assert(text.subrange(inner, cut) =~= dot_part());
                            }
                        }
                    } else {
                        assert(kept[1] == text[1]);
                        if text[0] == '.' && text[1] == '/' {
                            assert(opens_with_dot(text));
                        }
                    }
                }
            }
            assert(components(text) =~= components(kept).push(segment));
            assert(components(text).drop_last() =~= components(kept));
        } else {
            lemma_names_of_first_segment(text, end);
            assert(names_of(text) =~= seq![segment]);
            let kept = text.take(from);
            assert(leading_parts(kept) == leading_parts(text)) by {
                if from == 1 {
                    assert(kept[0] == text[0]);
                }
            }
            assert(components(kept) =~= leading_parts(text));
            assert(components(text).drop_last() =~= components(kept));
        }
    }
}

/// Whether a component is a plain name: not empty, not `.`, and without `/`.
pub open spec fn is_plain_name(part: Seq<char>) -> bool {
    is_name(part) && forall|j: int| 0 <= j < part.len() ==> part[j] != '/'
}

/// The pieces of a text that ends in `/` and a text without `/` are the
/// pieces of what stands before, and that last text.
proof fn lemma_pieces_of_extended(head: Seq<char>, last: Seq<char>)
    requires
        forall|j: int| 0 <= j < last.len() ==> last[j] != '/',
    ensures
        pieces(head.push('/') + last, Separator::Char('/')) == pieces(
            head,
            Separator::Char('/'),
        ).push(last),
    decreases last.len(),
{
    let separator = Separator::Char('/');
    let whole = head.push('/') + last;
    if last.len() == 0 {
        assert(last =~= Seq::<char>::empty());
        assert(whole =~= head.push('/'));
        assert(whole.drop_last() =~= head);
        assert(whole.last() == '/');
    } else {
        lemma_pieces_of_extended(head, last.drop_last());
        assert(whole.drop_last() =~= head.push('/') + last.drop_last());
        assert(whole.last() == last.last());
        let before = pieces(head, separator).push(last.drop_last());
        assert(before.drop_last() =~= pieces(head, separator));
        assert(last.drop_last().push(last.last()) =~= last);
        assert(pieces(whole, separator) =~= pieces(head, separator).push(last));
    }
}

/// The pieces of a text without `/` are the text alone.
proof fn lemma_pieces_of_plain(text: Seq<char>)
    requires
        forall|j: int| 0 <= j < text.len() ==> text[j] != '/',
    ensures
        pieces(text, Separator::Char('/')) == seq![text],
    decreases text.len(),
{
    if text.len() == 0 {
        assert(text =~= Seq::<char>::empty());
    } else {
        lemma_pieces_of_plain(text.drop_last());
        assert(text.drop_last().push(text.last()) =~= text);
        assert(pieces(text, Separator::Char('/')) =~= seq![text]);
    }
}

/// The path of the entry `name` of the directory `dir`: `dir/name`, with no
/// separator added to the empty directory or after a directory that ends in
/// one.
pub open spec fn child(dir: Seq<char>, name: Seq<char>) -> Seq<char> {
    if dir.len() == 0 {
        name
    } else if dir.last() == '/' {
        dir + name
    } else {
        dir.push('/') + name
    }
}

/// An entry of a directory lies in that directory: the components of
/// `dir/name` are those of `dir` and the name, so its directory is `dir`.
pub proof fn lemma_components_of_child(dir: Seq<char>, name: Seq<char>)
    requires
        is_plain_name(name),
    ensures
        components(child(dir, name)) == components(dir).push(name),
        directory(child(dir, name)) == Some(components(dir)),
{
    let separator = Separator::Char('/');
    let keep = |segment: Seq<char>| is_name(segment);
    let none = Seq::<Seq<char>>::empty();
    let text = child(dir, name);
    assert(none.filter(keep) =~= none) by {
        reveal(Seq::filter);
    }
    assert(name != root_part()) by {
        if name == root_part() {
            assert(name[0] == '/');
        }
    }
    if dir.len() == 0 {
        lemma_pieces_of_plain(name);
        lemma_pieces_of_plain(dir);
        assert(pieces(name, separator) =~= none.push(name));
        assert(pieces(dir, separator) =~= none.push(dir));
        none.lemma_filter_push(name, keep);
        none.lemma_filter_push(dir, keep);
        assert(!opens_with_dot(name)) by {
            if opens_with_dot(name) && name.len() == 1 {
                assert(name =~= dot_part());
            }
        }
        assert(components(dir) =~= none);
        assert(components(text) =~= none.push(name));
    } else if dir.last() == '/' {
        let head = dir.drop_last();
        assert(dir =~= head.push('/'));
        assert(text =~= head.push('/') + name);
        lemma_pieces_of_extended(head, name);
        lemma_pieces_of_extended(head, Seq::<char>::empty());
        assert(dir =~= head.push('/') + Seq::<char>::empty());
        pieces(head, separator).lemma_filter_push(name, keep);
        pieces(head, separator).lemma_filter_push(Seq::<char>::empty(), keep);
        assert(leading_parts(text) == leading_parts(dir)) by {
            assert(text[0] == dir[0]);
            if dir.len() >= 2 {
                assert(text[1] == dir[1]);
            }
        }
        assert(components(text) =~= components(dir).push(name));
    } else {
        lemma_pieces_of_extended(dir, name);
        pieces(dir, separator).lemma_filter_push(name, keep);
        assert(leading_parts(text) == leading_parts(dir)) by {
            assert(text[0] == dir[0]);
            if dir.len() >= 2 {
                assert(text[1] == dir[1]);
            } else {
                assert(text[1] == '/');
            }
        }
        assert(components(text) =~= components(dir).push(name));
    }
    assert(components(text).drop_last() =~= components(dir));
}

/// The order of texts: character by character, by code point; a text comes
/// before every text that it is a proper prefix of.
pub open spec fn chars_precede(a: Seq<char>, b: Seq<char>) -> bool
    decreases a.len(),
{
    if b.len() == 0 {
        false
    } else if a.len() == 0 {
        true
    } else if a[0] != b[0] {
        (a[0] as int) < (b[0] as int)
    } else {
        chars_precede(a.drop_first(), b.drop_first())
    }
}

/// The component that stands for the directory above.
pub open spec fn dotdot_part() -> Seq<char> {
    seq!['.', '.']
}

/// The kind of a component, as a rank: the root, `.`, `..`, then names.
pub open spec fn part_rank(part: Seq<char>) -> int {
    if part == root_part() {
        0
    } else if part == dot_part() {
        1
    } else if part == dotdot_part() {
        2
    } else {
        3
    }
}

/// The order of components: by kind, and names by their text.
pub open spec fn part_precedes(a: Seq<char>, b: Seq<char>) -> bool {
    part_rank(a) < part_rank(b) || (part_rank(a) == part_rank(b) && chars_precede(a, b))
}

/// The order of paths: component by component; a path comes before every
/// path that it is a proper prefix of.
pub open spec fn path_precedes(a: Seq<Seq<char>>, b: Seq<Seq<char>>) -> bool
    decreases a.len(),
{
    if b.len() == 0 {
        false
    } else if a.len() == 0 {
        true
    } else if a[0] != b[0] {
        part_precedes(a[0], b[0])
    } else {
        path_precedes(a.drop_first(), b.drop_first())
    }
}

/// No text comes before itself, and of two different texts exactly one comes
/// before the other.
pub proof fn lemma_chars_order_total(a: Seq<char>, b: Seq<char>)
    ensures
        !chars_precede(a, a),
        a != b ==> (chars_precede(a, b) <==> !chars_precede(b, a)),
    decreases a.len(),
{
    if a.len() > 0 {
        lemma_chars_order_total(a.drop_first(), a.drop_first());
    }
    if a.len() > 0 && b.len() > 0 {
        if a[0] == b[0] {
            lemma_chars_order_total(a.drop_first(), b.drop_first());
            if a.drop_first() == b.drop_first() {
                assert(a =~= seq![a[0]] + a.drop_first());
                assert(b =~= seq![b[0]] + b.drop_first());
            }
        }
    } else if a.len() == 0 && b.len() == 0 {
        assert(a =~= b);
    }
}

/// The order of texts is transitive.
pub proof fn lemma_chars_order_transitive(a: Seq<char>, b: Seq<char>, c: Seq<char>)
    requires
        chars_precede(a, b),
        chars_precede(b, c),
    ensures
        chars_precede(a, c),
    decreases a.len(),
{
    if a.len() > 0 {
        if a[0] == b[0] && b[0] == c[0] {
            lemma_chars_order_transitive(a.drop_first(), b.drop_first(), c.drop_first());
        }
    }
}

/// No component comes before itself, and of two different components exactly
/// one comes before the other.
pub proof fn lemma_part_order_total(a: Seq<char>, b: Seq<char>)
    ensures
        !part_precedes(a, a),
        a != b ==> (part_precedes(a, b) <==> !part_precedes(b, a)),
{
    lemma_chars_order_total(a, b);
    lemma_chars_order_total(a, a);
}

/// The order of components is transitive.
pub proof fn lemma_part_order_transitive(a: Seq<char>, b: Seq<char>, c: Seq<char>)
    requires
        part_precedes(a, b),
        part_precedes(b, c),
    ensures
        part_precedes(a, c),
{
    if part_rank(a) == part_rank(b) && part_rank(b) == part_rank(c) {
        lemma_chars_order_transitive(a, b, c);
    }
}

/// No path comes before itself, and of two different paths exactly one comes
/// before the other.
pub proof fn lemma_path_order_total(a: Seq<Seq<char>>, b: Seq<Seq<char>>)
    ensures
        !path_precedes(a, a),
        a != b ==> (path_precedes(a, b) <==> !path_precedes(b, a)),
    decreases a.len(),
{
    if a.len() > 0 {
        lemma_path_order_total(a.drop_first(), a.drop_first());
    }
    if a.len() > 0 && b.len() > 0 {
        if a[0] == b[0] {
            lemma_path_order_total(a.drop_first(), b.drop_first());
            if a.drop_first() == b.drop_first() {
                assert(a =~= seq![a[0]] + a.drop_first());
                assert(b =~= seq![b[0]] + b.drop_first());
            }
        } else {
            lemma_part_order_total(a[0], b[0]);
        }
    } else if a.len() == 0 && b.len() == 0 {
        assert(a =~= b);
    }
}

/// The order of paths is transitive.
pub proof fn lemma_path_order_transitive(a: Seq<Seq<char>>, b: Seq<Seq<char>>, c: Seq<Seq<char>>)
    requires
        path_precedes(a, b),
        path_precedes(b, c),
    ensures
        path_precedes(a, c),
    decreases a.len(),
{
    if a.len() > 0 {
        if a[0] == b[0] && b[0] == c[0] {
            lemma_path_order_transitive(a.drop_first(), b.drop_first(), c.drop_first());
        } else if a[0] == b[0] {
        } else if b[0] == c[0] {
        } else {
            lemma_part_order_transitive(a[0], b[0], c[0]);
            lemma_part_order_total(a[0], c[0]);
            lemma_part_order_total(a[0], b[0]);
        }
    }
}

/// Whether the text `a` comes before the text `b`.
pub fn chars_before(a: &Vec<char>, b: &Vec<char>) -> (before: bool)
    ensures
        before == chars_precede(a@, b@),
{
    let mut i: usize = 0;
    assert(a@.skip(0) =~= a@ && b@.skip(0) =~= b@);
    loop
        invariant
            i <= a.len(),
            i <= b.len(),
            chars_precede(a@, b@) == chars_precede(a@.skip(i as int), b@.skip(i as int)),
        decreases a.len() - i,
    {
        if i >= b.len() {
            return false;
        }
        if i >= a.len() {
            return true;
        }
        let x = a[i];
        let y = b[i];
        assert(a@.skip(i as int)[0] == x && b@.skip(i as int)[0] == y);
        if x != y {
            return x < y;
        }
        assert(a@.skip(i as int).drop_first() =~= a@.skip(i + 1));
        assert(b@.skip(i as int).drop_first() =~= b@.skip(i + 1));
        i += 1;
    }
}

/// The rank of a component's kind.
pub fn rank_of(part: &Vec<char>) -> (rank: u8)
    ensures
        rank == part_rank(part@),
{
    let n = part.len();
    if n == 1 && part[0] == '/' {
        assert(part@ =~= root_part());
        0
    } else if n == 1 && part[0] == '.' {
        assert(part@ =~= dot_part());
        assert(part@ != root_part()) by {
            assert(root_part()[0] == '/');
        }
        1
    } else if n == 2 && part[0] == '.' && part[1] == '.' {
        assert(part@ =~= dotdot_part());
        assert(part@.len() != root_part().len());
        assert(part@.len() != dot_part().len());
        2
    } else {
        proof {
            if part@ == root_part() {
                assert(part@.len() == 1 && part@[0] == '/');
            }
            if part@ == dot_part() {
                assert(part@.len() == 1 && part@[0] == '.');
            }
            if part@ == dotdot_part() {
                assert(part@.len() == 2 && part@[0] == '.' && part@[1] == '.');
            }
        }
        3
    }
}

/// Whether the path `a` comes before the path `b`.
pub fn path_before(a: &Vec<Vec<char>>, b: &Vec<Vec<char>>) -> (before: bool)
    ensures
        before == path_precedes(texts(a@), texts(b@)),
{
    let ghost pa = texts(a@);
    let ghost pb = texts(b@);
    let mut i: usize = 0;
    assert(pa.skip(0) =~= pa && pb.skip(0) =~= pb);
    loop
        invariant
            pa == texts(a@),
            pb == texts(b@),
            i <= a.len(),
            i <= b.len(),
            path_precedes(pa, pb) == path_precedes(pa.skip(i as int), pb.skip(i as int)),
        decreases a.len() - i,
    {
        if i >= b.len() {
            return false;
        }
        if i >= a.len() {
            return true;
        }
        assert(pa.skip(i as int)[0] == a@[i as int]@ && pb.skip(i as int)[0] == b@[i as int]@);
        if !same_chars(&a[i], &b[i]) {
            let ra = rank_of(&a[i]);
            let rb = rank_of(&b[i]);
            if ra != rb {
                return ra < rb;
            }
            return chars_before(&a[i], &b[i]);
        }
        assert(pa.skip(i as int).drop_first() =~= pa.skip(i + 1));
        assert(pb.skip(i as int).drop_first() =~= pb.skip(i + 1));
        i += 1;
    }
}

} // verus!
