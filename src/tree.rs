//! A scanned directory tree and what it says about removability.
use vstd::prelude::*;

verus! {

/// One entry of a directory, as the scan saw it.
///
/// Entries that could not be read or classified are left out of the tree
/// altogether: they neither disqualify their directory nor count for it.
#[verifier::reject_recursive_types(P)]
pub enum Entry<P> {
    /// A subdirectory (never a symbolic link), with everything below it.
    Dir(DirNode<P>),
    /// Anything that is not a directory: a file, a symbolic link, a socket.
    Other,
}

/// A directory, identified by its path, with its immediate entries.
#[verifier::reject_recursive_types(P)]
pub struct DirNode<P> {
    pub path: P,
    pub entries: Vec<Entry<P>>,
}

/// A directory is removable when it is empty, or when every entry in it is
/// itself a removable directory.
pub open spec fn is_removable<P>(d: DirNode<P>) -> bool
    decreases d,
{
    all_removable(d.entries@)
}

/// Every entry of `s` is a removable directory.
pub open spec fn all_removable<P>(s: Seq<Entry<P>>) -> bool
    decreases s,
{
    if s.len() == 0 {
        true
    } else {
        &&& all_removable(s.subrange(0, s.len() - 1))
        &&& match s[s.len() - 1] {
            Entry::Dir(c) => is_removable(c),
            Entry::Other => false,
        }
    }
}

/// Every directory strictly below `d`, in post-order: each directory comes
/// right after everything below it, and entries are taken in their order.
pub open spec fn subdirs<P>(d: DirNode<P>) -> Seq<DirNode<P>>
    decreases d,
{
    entries_subdirs(d.entries@)
}

/// The directories in and below the entries `s`, in post-order.
pub open spec fn entries_subdirs<P>(s: Seq<Entry<P>>) -> Seq<DirNode<P>>
    decreases s,
{
    if s.len() == 0 {
        seq![]
    } else {
        entries_subdirs(s.subrange(0, s.len() - 1)) + match s[s.len() - 1] {
            Entry::Dir(c) => subdirs(c).push(c),
            Entry::Other => seq![],
        }
    }
}

/// The paths of the removable directories among `s`, in the order of `s`.
pub open spec fn listed<P>(s: Seq<DirNode<P>>) -> Seq<P> {
    s.filter(|x: DirNode<P>| is_removable(x)).map_values(|x: DirNode<P>| x.path)
}

/// What a scan of `root` reports: the paths of the removable directories
/// strictly below it, in post-order. The root itself is never listed.
pub open spec fn removal_order<P>(root: DirNode<P>) -> Seq<P> {
    listed(subdirs(root))
}

/// What a scan of `d` hands to the scan of its parent: the removable
/// directories below `d`, then `d` itself if it is removable.
pub open spec fn subtree_order<P>(d: DirNode<P>) -> Seq<P> {
    listed(subdirs(d).push(d))
}

} // verus!
