//! The content hash of a repository: a digest of its committed state, its
//! staged state and its unstaged changes. The hash is only ever compared.

use sha2::{Digest, Sha256};
use vstd::prelude::*;

verus! {

/// The SHA-256 digest of `data`.
pub uninterp spec fn sha256(data: Seq<u8>) -> Seq<u8>;

/// Computes the SHA-256 digest of `data` with `Sha256::digest` of the `sha2`
/// crate. The digest depends on the bytes alone.
#[verifier::external_body]
pub(crate) fn sha256_of(data: &[u8]) -> (digest: [u8; 32])
    ensures
        digest@ == sha256(data@),
{
    Sha256::digest(data).into()
}

/// What is read from a repository to tell its state.
#[derive(Debug)]
pub struct RepoState {
    /// The object id that `HEAD` points to, if it points to a commit.
    pub head_oid: Option<Vec<u8>>,
    /// The object id of the tree of the index.
    pub index_tree_oid: Vec<u8>,
    /// The lines of the patch from the index to the working directory,
    /// untracked files included.
    pub diff_lines: Vec<Vec<u8>>,
}

/// The object id that stands for a missing commit: twenty zero bytes.
pub open spec fn zero_oid() -> Seq<u8> {
    Seq::new(20, |i: int| 0u8)
}

/// All rows, one after the other.
pub open spec fn concatenated(rows: Seq<Seq<u8>>) -> Seq<u8>
    decreases rows.len(),
{
    if rows.len() == 0 {
        Seq::empty()
    } else {
        concatenated(rows.drop_last()) + rows.last()
    }
}

/// The rows that a vector of byte vectors stands for.
pub open spec fn byte_rows(rows: Seq<Vec<u8>>) -> Seq<Seq<u8>> {
    Seq::new(rows.len(), |i: int| rows[i]@)
}

/// The content hash of a repository state: the digest of the head commit's
/// id (or the zero id), the id of the index tree, and the digest of the
/// unstaged patch.
pub open spec fn repo_hash(head: Option<Seq<u8>>, index_tree: Seq<u8>, diff: Seq<Seq<u8>>) -> Seq<u8> {
    let commit = match head {
        Some(id) => id,
        None => zero_oid(),
    };
    sha256(commit + index_tree + sha256(concatenated(diff)))
}

/// Appends `bytes` to `out`.
fn append_bytes(out: &mut Vec<u8>, bytes: &[u8])
    ensures
        final(out)@ == old(out)@ + bytes@,
{
    let mut i: usize = 0;
    assert(out@ =~= old(out)@ + bytes@.take(0));
    while i < bytes.len()
        invariant
            i <= bytes.len(),
            out@ == old(out)@ + bytes@.take(i as int),
        decreases bytes.len() - i,
    {
        out.push(bytes[i]);
        i += 1;
        assert(out@ =~= old(out)@ + bytes@.take(i as int));
    }
    assert(bytes@.take(bytes.len() as int) =~= bytes@);
}

/// The content hash of a repository state.
pub fn get_repo_hash(state: &RepoState) -> (hash: [u8; 32])
    ensures
        hash@ == repo_hash(
            match state.head_oid {
                Some(id) => Some(id@),
                None => None,
            },
            state.index_tree_oid@,
            byte_rows(state.diff_lines@),
        ),
{
    let ghost rows = byte_rows(state.diff_lines@);
    let mut patch: Vec<u8> = Vec::new();
    let n = state.diff_lines.len();
    let mut i: usize = 0;
    assert(patch@ =~= concatenated(rows.take(0)));
    while i < n
        invariant
            n == state.diff_lines.len(),
            i <= n,
            rows == byte_rows(state.diff_lines@),
            patch@ == concatenated(rows.take(i as int)),
        decreases n - i,
    {
        proof {
            assert(rows.take(i + 1).drop_last() =~= rows.take(i as int));
            assert(rows.take(i + 1).last() == state.diff_lines@[i as int]@);
        }
        append_bytes(&mut patch, state.diff_lines[i].as_slice());
        i += 1;
    }
    assert(rows.take(n as int) =~= rows);
    let unstaged = sha256_of(patch.as_slice());
    let mut all: Vec<u8> = Vec::new();
    match &state.head_oid {
        Some(id) => {
            append_bytes(&mut all, id.as_slice());
        },
        None => {
            let mut k: usize = 0;
            while k < 20
                invariant
                    k <= 20,
                    all@ == Seq::new(k as nat, |i: int| 0u8),
                decreases 20 - k,
            {
                all.push(0u8);
                k += 1;
                assert(all@ =~= Seq::new(k as nat, |i: int| 0u8));
            }
        },
    }
    append_bytes(&mut all, state.index_tree_oid.as_slice());
    append_bytes(&mut all, unstaged.as_slice());
    sha256_of(all.as_slice())
}

} // verus!
