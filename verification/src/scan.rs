//! The pruning rules of the directory scan.
//!
//! The scan visits every entry strictly under the root, but skips a whole
//! subtree when its directory either holds the reserved cache-marker file or
//! has a name that begins with the hidden-entry prefix `.`. The traversal
//! itself is I/O and lives outside the library; the decision of what to keep
//! is stated and checked here.

use vstd::prelude::*;

verus! {

/// The byte of the hidden-entry prefix `.`.
pub const DOT: u8 = 46;

/// A name beginning with the hidden-entry prefix is hidden.
pub open spec fn spec_hidden_name(name: Seq<u8>) -> bool {
    name.len() > 0 && name[0] == DOT
}

/// The reserved cache-marker file name `CACHEDIR.TAG`: a directory holding
/// a file of this name is excluded from the scan with its whole subtree.
pub open spec fn spec_cache_marker_name() -> Seq<u8> {
    seq![67u8, 65u8, 67u8, 72u8, 69u8, 68u8, 73u8, 82u8, 46u8, 84u8, 65u8, 71u8]
}

/// The reserved cache-marker file name `CACHEDIR.TAG`.
pub fn cache_marker_name() -> (r: Vec<u8>)
    ensures
        r@ == spec_cache_marker_name(),
{
    let mut r = Vec::new();
    r.push(67u8);
    r.push(65u8);
    r.push(67u8);
    r.push(72u8);
    r.push(69u8);
    r.push(68u8);
    r.push(73u8);
    r.push(82u8);
    r.push(46u8);
    r.push(84u8);
    r.push(65u8);
    r.push(71u8);
    proof {
        assert(r@ =~= spec_cache_marker_name());
    }
    r
}

/// Whether the scan may visit an entry: it must not hold the cache marker
/// and its name must not be hidden. A rejected directory is pruned with its
/// whole subtree.
pub fn keep_entry(has_cache_marker: bool, name: &Vec<u8>) -> (r: bool)
    ensures
        r == (!has_cache_marker && !spec_hidden_name(name@)),
{
    if has_cache_marker {
        return false;
    }
    if name.len() > 0 && name[0] == DOT {
        return false;
    }
    true
}

} // verus!
