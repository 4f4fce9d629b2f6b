//! The cache file: where it goes, and how its encoding is told on reading.
//!
//! A cache file is written in one of two encodings and carries no header. A
//! file that begins with `{` is taken for the textual encoding; every other
//! file is tried as binary first and as text after that.

use crate::paths::{directory, directory_of, parent_of, parent_text};
use crate::types::{CacheEncoding, CodeownersCache, Error, ErrorKind};
use crate::text::chars_of;
use vstd::prelude::*;

verus! {

/// Whether the content begins like the textual encoding: with `{`.
pub open spec fn looks_textual(content: Seq<u8>) -> bool {
    content.len() > 0 && content[0] == 0x7B
}

/// The encodings to try on the content, in their order.
pub open spec fn decoding_order(content: Seq<u8>) -> Seq<CacheEncoding> {
    if looks_textual(content) {
        seq![CacheEncoding::Json]
    } else {
        seq![CacheEncoding::Bincode, CacheEncoding::Json]
    }
}

/// The encoding that the content of a cache file appears to have.
pub fn detect_encoding(content: &[u8]) -> (encoding: CacheEncoding)
    ensures
        encoding == decoding_order(content@)[0],
{
    if content.len() > 0 && content[0] == 0x7B {
        CacheEncoding::Json
    } else {
        CacheEncoding::Bincode
    }
}

/// The encodings to try when a cache file is read, in their order. The
/// cache is the first that decodes; where none does, reading fails.
pub fn decode_order(content: &[u8]) -> (order: Vec<CacheEncoding>)
    ensures
        order@ == decoding_order(content@),
{
    let mut order: Vec<CacheEncoding> = Vec::new();
    match detect_encoding(content) {
        CacheEncoding::Json => {
            order.push(CacheEncoding::Json);
        },
        CacheEncoding::Bincode => {
            order.push(CacheEncoding::Bincode);
            order.push(CacheEncoding::Json);
        },
    }
    assert(order@ =~= decoding_order(content@));
    order
}

/// The message of a failed load: whether the file was taken for text from
/// the start or tried in both encodings, and after that the reason that the
/// textual decoder, which is always the last to be asked, gave.
pub open spec fn failure_message(content: Seq<u8>, reason: Seq<char>) -> Seq<char> {
    (if looks_textual(content) {
        "Failed to deserialize JSON cache"@
    } else {
        "Failed to deserialize cache in any supported format"@
    }) + seq![':', ' '] + reason
}

/// The failure to report when no encoding of `decode_order` decodes the
/// content: a `Serialization` error that carries the decoder's reason.
pub fn load_failure(content: &[u8], reason: &str) -> (error: Error)
    ensures
        error.kind == ErrorKind::Serialization,
        error.message@ == failure_message(content@, reason@),
{
    let mut message = match detect_encoding(content) {
        CacheEncoding::Json => "Failed to deserialize JSON cache".to_owned(),
        CacheEncoding::Bincode => "Failed to deserialize cache in any supported format".to_owned(),
    };
    let ghost head = message@;
    message.push(':');
    message.push(' ');
    let chars = chars_of(reason);
    let mut i: usize = 0;
    assert(message@ =~= head + seq![':', ' '] + reason@.take(0));
    while i < chars.len()
        invariant
            i <= chars.len(),
            chars@ == reason@,
            message@ == head + seq![':', ' '] + reason@.take(i as int),
        decreases chars.len() - i,
    {
        message.push(chars[i]);
        i += 1;
        assert(message@ =~= head + seq![':', ' '] + reason@.take(i as int));
    }
    assert(reason@.take(chars.len() as int) =~= reason@);
    Error { kind: ErrorKind::Serialization, message }
}

/// What reading a cache file yields, given what the decoders made of its
/// content: the first cache in the order of `decoding_order`, if there is
/// one.
pub open spec fn loaded(
    content: Seq<u8>,
    as_bincode: Option<CodeownersCache>,
    as_json: Result<CodeownersCache, String>,
) -> Option<CodeownersCache> {
    if !looks_textual(content) && as_bincode is Some {
        as_bincode
    } else {
        match as_json {
            Ok(cache) => Some(cache),
            Err(_) => None,
        }
    }
}

/// Loading gives back what was stored, as far as the choice goes: where the
/// decoder of the encoding that the content appears to have returns a
/// cache, that very cache is what is loaded. That a decoder returns the
/// cache that was encoded is the decoder's matter.
pub proof fn lemma_load_returns_the_decoded_cache(
    content: Seq<u8>,
    as_bincode: Option<CodeownersCache>,
    as_json: Result<CodeownersCache, String>,
    cache: CodeownersCache,
)
    requires
        looks_textual(content) ==> as_json == Ok::<CodeownersCache, String>(cache),
        !looks_textual(content) ==> as_bincode == Some(cache),
    ensures
        loaded(content, as_bincode, as_json) == Some(cache),
{
}

/// Picks the cache that a file holds from what the decoders made of its
/// content. `as_bincode` is `None` where the binary decoder failed or was
/// not asked; `as_json` is the cache of the textual decoder or its reason
/// for failing. The result is a whole cache or a `Serialization` error that
/// carries that reason, never a part of a cache.
pub fn load_cache(
    content: &[u8],
    as_bincode: Option<CodeownersCache>,
    as_json: Result<CodeownersCache, String>,
) -> (cache: Result<CodeownersCache, Error>)
    ensures
        cache is Ok <==> loaded(content@, as_bincode, as_json) is Some,
        cache matches Ok(found) ==> loaded(content@, as_bincode, as_json) == Some(found),
        cache matches Err(error) ==> error.kind == ErrorKind::Serialization && as_json is Err
            && error.message@ == failure_message(content@, as_json->Err_0@),
{
    let first = match detect_encoding(content) {
        CacheEncoding::Json => None,
        CacheEncoding::Bincode => as_bincode,
    };
    match first {
        Some(found) => Ok(found),
        None => match as_json {
            Ok(found) => Ok(found),
            Err(reason) => Err(load_failure(content, reason.as_str())),
        },
    }
}

/// The directory that a cache file at `path` is written into, and that has
/// to exist before the file is written.
///
/// Fails, with `InvalidInput`, exactly when the path has no directory.
pub fn cache_directory(path: &str) -> (dir: Result<String, Error>)
    ensures
        dir is Ok <==> directory(path@) is Some,
        dir matches Ok(text) ==> text@ == parent_text(path@),
        dir matches Err(error) ==> error.kind == ErrorKind::InvalidInput && error.message@
            == "Invalid cache path"@,
{
    match directory_of(path) {
        Some(_) => Ok(parent_of(path)),
        None => Err(Error::new(ErrorKind::InvalidInput, "Invalid cache path")),
    }
}

} // verus!
