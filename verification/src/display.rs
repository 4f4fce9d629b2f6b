//! Shortening of texts for display in a column.

use crate::text::{append_chars, chars_of, string_of_all};
use vstd::prelude::*;
use vstd::utf8::encode_utf8;

verus! {

/// The mark that stands for what was cut away.
pub open spec fn dots() -> Seq<char> {
    seq!['.', '.', '.']
}

/// The length of a text in bytes, in UTF-8.
pub open spec fn byte_len(text: Seq<char>) -> nat {
    encode_utf8(text).len()
}

/// The smaller of two numbers.
pub open spec fn least(a: int, b: int) -> int {
    if a <= b {
        a
    } else {
        b
    }
}

/// A text of at most `max_len` characters: the text itself where it fits,
/// else its beginning followed by the dots, and the dots alone where no room
/// is left beside them.
pub open spec fn truncated_string(text: Seq<char>, max_len: nat) -> Seq<char> {
    if text.len() <= max_len {
        text
    } else if max_len <= 3 {
        dots()
    } else {
        text.take(max_len - 3) + dots()
    }
}

/// The place of the last `c` in `text`.
pub open spec fn last_index_of(text: Seq<char>, c: char) -> Option<int>
    decreases text.len(),
{
    if text.len() == 0 {
        None
    } else if text.last() == c {
        Some(text.len() - 1)
    } else {
        last_index_of(text.drop_last(), c)
    }
}

/// A path shortened to fit `max_len`, the file name kept where possible.
///
/// Whether the path and the file name fit is decided by their lengths in
/// bytes; what is kept is counted in characters. A path that fits stays as
/// it is. Of a path without `/` the beginning is kept, followed by the dots.
/// Otherwise the file name is the text from the last `/` on: where it fits
/// beside the dots, the path's beginning fills the rest of the room; where it
/// does not, the dots take the place of its first three characters and what
/// follows is kept up to `max_len` characters.
pub open spec fn truncated_path(path: Seq<char>, max_len: nat) -> Seq<char> {
    if byte_len(path) <= max_len {
        path
    } else {
        match last_index_of(path, '/') {
            Some(slash) => {
                let name = path.skip(slash);
                if byte_len(name) >= max_len {
                    if max_len <= 3 {
                        dots()
                    } else {
                        let end = least(name.len() as int, max_len as int);
                        dots() + name.subrange(least(3, end), end)
                    }
                } else if max_len - byte_len(name) <= 3 {
                    dots() + name
                } else {
                    path.take(least(max_len - byte_len(name) - 3, path.len() as int)) + dots()
                        + name
                }
            },
            None => if max_len <= 3 {
                dots()
            } else {
                path.take(least(max_len - 3, path.len() as int)) + dots()
            },
        }
    }
}

/// A truncated text fits: it has at most `max_len` characters, or the three
/// of the dots where `max_len` is less.
pub proof fn lemma_truncated_string_fits(text: Seq<char>, max_len: nat)
    ensures
        truncated_string(text, max_len).len() <= if max_len < 3 {
            3
        } else {
            max_len
        },
        text.len() <= max_len ==> truncated_string(text, max_len) == text,
{
}

/// Appends the dots.
fn push_dots(out: &mut Vec<char>)
    ensures
        final(out)@ == old(out)@ + dots(),
{
    out.push('.');
    out.push('.');
    out.push('.');
    assert(out@ =~= old(out)@ + dots());
}

/// Shortens a text to at most `max_len` characters.
pub fn truncate_string(s: &str, max_len: usize) -> (short: String)
    ensures
        short@ == truncated_string(s@, max_len as nat),
{
    let chars = chars_of(s);
    if chars.len() <= max_len {
        return string_of_all(&chars);
    }
    let mut out: Vec<char> = Vec::new();
    if max_len > 3 {
        append_chars(&mut out, &chars, 0, max_len - 3);
    }
    push_dots(&mut out);
    proof {
        if max_len > 3 {
            assert(out@ =~= s@.take(max_len - 3) + dots());
        } else {
            assert(out@ =~= dots());
        }
    }
    string_of_all(&out)
}

/// The place of the last `c` in `chars`.
fn find_last(chars: &Vec<char>, c: char) -> (place: Option<usize>)
    ensures
        place is Some <==> last_index_of(chars@, c) is Some,
        place matches Some(i) ==> i < chars.len() && last_index_of(chars@, c) == Some(i as int),
{
    let mut i: usize = chars.len();
    assert(chars@.take(i as int) =~= chars@);
    while i > 0
        invariant
            i <= chars.len(),
            last_index_of(chars@, c) == last_index_of(chars@.take(i as int), c),
        decreases i,
    {
        assert(chars@.take(i as int).last() == chars@[i - 1]);
        if chars[i - 1] == c {
            return Some(i - 1);
        }
        assert(chars@.take(i as int).drop_last() =~= chars@.take(i - 1));
        i -= 1;
    }
    None
}

/// Shortens a path to fit `max_len`, keeping the file name where possible.
pub fn truncate_path(path: &str, max_len: usize) -> (short: String)
    ensures
        short@ == truncated_path(path@, max_len as nat),
{
    if path.as_bytes().len() <= max_len {
        return path.to_owned();
    }
    let chars = chars_of(path);
    let n = chars.len();
    let mut out: Vec<char> = Vec::new();
    match find_last(&chars, '/') {
        Some(slash) => {
            let name = path.substring_char(slash, n);
            assert(name@ =~= path@.skip(slash as int));
            let name_bytes = name.as_bytes().len();
            if name_bytes >= max_len {
                if max_len <= 3 {
                    push_dots(&mut out);
                    assert(out@ =~= dots());
                } else {
                    let count = n - slash;
                    let end = if count <= max_len {
                        count
                    } else {
                        max_len
                    };
                    let from = if end < 3 {
                        end
                    } else {
                        3
                    };
                    push_dots(&mut out);
                    append_chars(&mut out, &chars, slash + from, slash + end);
                    assert(out@ =~= dots() + path@.skip(slash as int).subrange(
                        from as int,
                        end as int,
                    ));
                }
            } else if max_len - name_bytes <= 3 {
                push_dots(&mut out);
                append_chars(&mut out, &chars, slash, n);
                assert(out@ =~= dots() + path@.skip(slash as int));
            } else {
                let room = max_len - name_bytes - 3;
                let keep = if room <= n {
                    room
                } else {
                    n
                };
                append_chars(&mut out, &chars, 0, keep);
                push_dots(&mut out);
                append_chars(&mut out, &chars, slash, n);
                assert(out@ =~= path@.take(keep as int) + dots() + path@.skip(slash as int));
            }
        },
        None => {
            if max_len <= 3 {
                push_dots(&mut out);
                assert(out@ =~= dots());
            } else {
                let keep = if max_len - 3 <= n {
                    max_len - 3
                } else {
                    n
                };
                append_chars(&mut out, &chars, 0, keep);
                push_dots(&mut out);
                assert(out@ =~= path@.take(keep as int) + dots());
            }
        },
    }
    string_of_all(&out)
}

} // verus!
