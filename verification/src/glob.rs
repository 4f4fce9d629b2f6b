//! Glob matching, done by the `ignore` crate's override sets.
//!
//! Nothing is said here of what an override set holds. A set is known by its
//! answers alone, and a set that this crate compiles is known to answer as
//! the directory and the glob line that it was made from determine.

use ignore::overrides::{Override, OverrideBuilder};
use vstd::prelude::*;

verus! {

/// A compiled set of override globs of the `ignore` crate.
#[verifier::external_type_specification]
#[verifier::external_body]
pub struct ExOverride(Override);

/// Whether this set whitelists the file `path`: what
/// `Override::matched(path, false).is_whitelist()` answers for it.
pub uninterp spec fn set_whitelists(set: Override, path: Seq<char>) -> bool;

/// Whether an override set can be made from one glob line: whether the line is
/// accepted by `OverrideBuilder::add` and the set then builds, under the
/// options that `OverrideBuilder::new` sets.
pub uninterp spec fn glob_compiles(glob: Seq<char>) -> bool;

/// Whether the override set that is made for the directory `root` from the
/// one glob line `glob`, under the options that `OverrideBuilder::new` sets,
/// whitelists the file `path`.
pub uninterp spec fn glob_whitelists(root: Seq<char>, glob: Seq<char>, path: Seq<char>) -> bool;

/// Makes the override set of one glob line with `OverrideBuilder::new`, `add`
/// and `build`, and no option changed. The result is `None` exactly when the
/// line is refused. A set that comes back answers on every path as the
/// directory and the line determine; what it stores of them is not said.
#[verifier::external_body]
pub(crate) fn compile_override(root: &str, glob: &str) -> (set: Option<Override>)
    ensures
        set is Some <==> glob_compiles(glob@),
        set matches Some(s) ==> forall|path: Seq<char>|
            #[trigger] set_whitelists(s, path) == glob_whitelists(root@, glob@, path),
{
    let mut builder = OverrideBuilder::new(root);
    match builder.add(glob) {
        Ok(b) => b.build().ok(),
        Err(_) => None,
    }
}

/// Asks `Override::matched` whether the set whitelists the file `path`. The
/// contract only names the answer of this set; it holds of every set,
/// however it was built.
#[verifier::external_body]
pub(crate) fn override_whitelists(set: &Override, path: &str) -> (hit: bool)
    ensures
        hit == set_whitelists(*set, path@),
{
    set.matched(path, false).is_whitelist()
}

} // verus!
