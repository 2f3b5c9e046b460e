//! What holds of every scan: which directories are listed, in what order,
//! and what a dry run and a second run do.
use vstd::prelude::*;
use crate::scan::{Step, steps_for};
use crate::tree::{
    DirNode, Entry, is_removable, all_removable, subdirs, entries_subdirs, removal_order,
};

verus! {



/// No two directories of the tree, the root included, share a path, as on a
/// real filesystem.
pub open spec fn paths_distinct<P>(root: DirNode<P>) -> bool {
    subdirs(root).map_values(|x: DirNode<P>| x.path).push(root.path).no_duplicates()
}

/// Each path that a scan lists is the path of a removable directory strictly
/// below the root.
pub proof fn lemma_listed_paths_are_removable<P>(root: DirNode<P>, k: int)
    requires
        0 <= k < removal_order(root).len(),
    ensures
        exists|j: int|
            0 <= j < subdirs(root).len() && #[trigger] subdirs(root)[j].path == removal_order(
                root,
            )[k] && is_removable(subdirs(root)[j]),
{
    let f = |x: DirNode<P>| is_removable(x);
    let s = subdirs(root);
    let e = s.filter(f)[k];
    s.lemma_filter_pred(f, k);
    assert(s.filter(f).contains(e));
    s.lemma_filter_contains_rev(f, e);
    let j = choose|j: int| 0 <= j < s.len() && s[j] == e;
    assert(s[j].path == removal_order(root)[k]);
}

/// A directory strictly below the root is listed by a scan exactly when it is
/// removable: when it is empty, or holds only removable directories.
pub proof fn lemma_listed_iff_removable<P>(root: DirNode<P>, i: int)
    requires
        paths_distinct(root),
        0 <= i < subdirs(root).len(),
    ensures
        removal_order(root).contains(subdirs(root)[i].path) <==> is_removable(subdirs(root)[i]),
{
    let f = |x: DirNode<P>| is_removable(x);
    let s = subdirs(root);
    let paths = s.map_values(|x: DirNode<P>| x.path).push(root.path);
    if is_removable(s[i]) {
        s.lemma_filter_contains(f, i);
        let m = choose|m: int| 0 <= m < s.filter(f).len() && s.filter(f)[m] == s[i];
        assert(removal_order(root)[m] == s[i].path);
    }
    if removal_order(root).contains(s[i].path) {
        let k = choose|k: int| 0 <= k < removal_order(root).len() && removal_order(root)[k] == s[i].path;
        lemma_listed_paths_are_removable(root, k);
        let j = choose|j: int|
            0 <= j < s.len() && #[trigger] s[j].path == removal_order(root)[k] && is_removable(s[j]);
        assert(paths[j] == paths[i]);
    }
}

/// The root is never listed, not even when everything below it is removable.
pub proof fn lemma_root_never_listed<P>(root: DirNode<P>)
    requires
        paths_distinct(root),
    ensures
        !removal_order(root).contains(root.path),
{
    let s = subdirs(root);
    let paths = s.map_values(|x: DirNode<P>| x.path).push(root.path);
    if removal_order(root).contains(root.path) {
        let k = choose|k: int| 0 <= k < removal_order(root).len() && removal_order(root)[k] == root.path;
        lemma_listed_paths_are_removable(root, k);
        let j = choose|j: int|
            0 <= j < s.len() && #[trigger] s[j].path == removal_order(root)[k] && is_removable(s[j]);
        assert(paths[j] == paths[s.len() as int]);
    }
}

/// The removable directories strictly below `d`, in the order a scan lists
/// their paths.
pub open spec fn removable_below<P>(d: DirNode<P>) -> Seq<DirNode<P>> {
    subdirs(d).filter(|x: DirNode<P>| is_removable(x))
}

/// Filtering keeps a sequence whole when every item passes.
proof fn lemma_filter_all<A>(s: Seq<A>, f: spec_fn(A) -> bool)
    requires
        forall|k: int| 0 <= k < s.len() ==> f(s[k]),
    ensures
        s.filter(f) == s,
    decreases s.len(),
{
    reveal(Seq::filter);
    if s.len() > 0 {
        lemma_filter_all(s.drop_last(), f);
        assert(s.drop_last().push(s.last()) =~= s);
    } else {
        assert(s.filter(f) =~= s);
    }
}

/// Everything below a removable directory is removable too.
proof fn lemma_below_removable<P>(d: DirNode<P>)
    requires
        is_removable(d),
    ensures
        forall|k: int| 0 <= k < subdirs(d).len() ==> is_removable(#[trigger] subdirs(d)[k]),
    decreases d,
{
    lemma_entries_below_removable(d.entries@);
    assert(subdirs(d) == entries_subdirs(d.entries@));
}

proof fn lemma_entries_below_removable<P>(s: Seq<Entry<P>>)
    requires
        all_removable(s),
    ensures
        forall|k: int|
            0 <= k < entries_subdirs(s).len() ==> is_removable(#[trigger] entries_subdirs(s)[k]),
    decreases s,
{
    if s.len() > 0 {
        let init = s.subrange(0, s.len() - 1);
        lemma_entries_below_removable(init);
        if let Entry::Dir(c) = s[s.len() - 1] {
            lemma_below_removable(c);
            let a = entries_subdirs(init);
            let b = subdirs(c).push(c);
            assert forall|k: int| 0 <= k < (a + b).len() implies is_removable(#[trigger] (a + b)[k]) by {
                if k >= a.len() && k < a.len() + subdirs(c).len() {
                    assert((a + b)[k] == subdirs(c)[k - a.len()]);
                }
            }
        }
    }
}

/// Each listed directory comes right after every directory below it, so a
/// directory is reached only once everything under it has been removed.
pub proof fn lemma_listed_after_everything_below<P>(root: DirNode<P>, j: int)
    requires
        0 <= j < removable_below(root).len(),
    ensures
        subdirs(removable_below(root)[j]).len() <= j,
        removable_below(root).subrange(j - subdirs(removable_below(root)[j]).len(), j)
            == subdirs(removable_below(root)[j]),
    decreases root, 2int,
{
    lemma_entries_listed_after_below(root.entries@, j);
}

/// The removable directories in and below the entries `s`, split at the
/// last entry.
proof fn lemma_entries_removable_split<P>(s: Seq<Entry<P>>)
    requires
        s.len() > 0,
    ensures
        entries_subdirs(s).filter(|x: DirNode<P>| is_removable(x)) == entries_subdirs(
            s.subrange(0, s.len() - 1),
        ).filter(|x: DirNode<P>| is_removable(x)) + match s[s.len() - 1] {
            Entry::Dir(c) => if is_removable(c) {
                removable_below(c).push(c)
            } else {
                removable_below(c)
            },
            Entry::Other => seq![],
        },
{
    let f = |x: DirNode<P>| is_removable(x);
    let a = entries_subdirs(s.subrange(0, s.len() - 1));
    let b = match s[s.len() - 1] {
        Entry::Dir(c) => subdirs(c).push(c),
        Entry::Other => seq![],
    };
    assert(entries_subdirs(s) == a + b);
    Seq::filter_distributes_over_add(a, b, f);
    match s[s.len() - 1] {
        Entry::Dir(c) => {
            subdirs(c).lemma_filter_push(c, f);
        },
        Entry::Other => {
            assert(b.filter(f) =~= seq![]) by {
                reveal(Seq::filter);
            }
        },
    }
}

proof fn lemma_entries_listed_after_below<P>(s: Seq<Entry<P>>, j: int)
    requires
        0 <= j < entries_subdirs(s).filter(|x: DirNode<P>| is_removable(x)).len(),
    ensures
        ({
            let l = entries_subdirs(s).filter(|x: DirNode<P>| is_removable(x));
            &&& subdirs(l[j]).len() <= j
            &&& l.subrange(j - subdirs(l[j]).len(), j) == subdirs(l[j])
        }),
    decreases s, 1int,
{
    let f = |x: DirNode<P>| is_removable(x);
    let l = entries_subdirs(s).filter(f);
    if s.len() > 0 {
        let init = s.subrange(0, s.len() - 1);
        let la = entries_subdirs(init).filter(f);
        lemma_entries_removable_split(s);
        if j < la.len() {
            lemma_entries_listed_after_below(init, j);
            assert(l[j] == la[j]);
            assert(l.subrange(j - subdirs(l[j]).len(), j) =~= la.subrange(
                j - subdirs(la[j]).len(),
                j,
            ));
        } else {
            lemma_last_entry_listed_after_below(s, j);
        }
    }
}

/// The case of `lemma_entries_listed_after_below` where position `j` falls in
/// the last entry.
#[verifier::rlimit(30)]
proof fn lemma_last_entry_listed_after_below<P>(s: Seq<Entry<P>>, j: int)
    requires
        s.len() > 0,
        entries_subdirs(s.subrange(0, s.len() - 1)).filter(|x: DirNode<P>| is_removable(x)).len()
            <= j < entries_subdirs(s).filter(|x: DirNode<P>| is_removable(x)).len(),
    ensures
        ({
            let l = entries_subdirs(s).filter(|x: DirNode<P>| is_removable(x));
            &&& subdirs(l[j]).len() <= j
            &&& l.subrange(j - subdirs(l[j]).len(), j) == subdirs(l[j])
        }),
    decreases s, 0int,
{
    let f = |x: DirNode<P>| is_removable(x);
    let l = entries_subdirs(s).filter(f);
    let la = entries_subdirs(s.subrange(0, s.len() - 1)).filter(f);
    lemma_entries_removable_split(s);
    if let Entry::Dir(c) = s[s.len() - 1] {
        let lc = removable_below(c);
        let pc = if is_removable(c) {
            lc.push(c)
        } else {
            lc
        };
        assert(l == la + pc);
        let jj = j - la.len();
        assert(l[j] == pc[jj]);
        let k = subdirs(pc[jj]).len();
        if jj < lc.len() {
            lemma_listed_after_everything_below(c, jj);
            assert(pc[jj] == lc[jj]);
            assert(l.subrange(j - k, j) =~= lc.subrange(jj - k, jj));
        } else {
            assert(pc[jj] == c);
            lemma_below_removable(c);
            lemma_filter_all(subdirs(c), f);
            assert(l.subrange(j - k, j) =~= subdirs(c));
        }
    }
}

/// A dry run reports the very paths that a real run reports, in the same
/// order, and deletes none of them; a real run deletes each one it reports.
pub proof fn lemma_dry_run_deletes_nothing<P>(root: DirNode<P>)
    ensures
        steps_for(removal_order(root), true).map_values(|t: Step<P>| t.path) == removal_order(root),
        steps_for(removal_order(root), false).map_values(|t: Step<P>| t.path) == removal_order(root),
        forall|i: int|
            0 <= i < removal_order(root).len() ==> !(#[trigger] steps_for(removal_order(root), true)[i]).delete,
        forall|i: int|
            0 <= i < removal_order(root).len() ==> (#[trigger] steps_for(removal_order(root), false)[i]).delete,
{
    assert(steps_for(removal_order(root), true).map_values(|t: Step<P>| t.path) =~= removal_order(root));
    assert(steps_for(removal_order(root), false).map_values(|t: Step<P>| t.path) =~= removal_order(root));
}

/// `after` is what is left of `before` once every removable directory below
/// it is gone: the same path, and the same entries in the same order, less
/// the removable subdirectories, each kept subdirectory being what is left of
/// the one before.
pub open spec fn remains<P>(before: DirNode<P>, after: DirNode<P>) -> bool
    decreases before,
{
    after.path == before.path && entries_remain(before.entries@, after.entries@)
}

/// The entries `a` are what is left of the entries `b` once every removable
/// directory among and below them is gone.
pub open spec fn entries_remain<P>(b: Seq<Entry<P>>, a: Seq<Entry<P>>) -> bool
    decreases b,
{
    if b.len() == 0 {
        a.len() == 0
    } else {
        let b_init = b.subrange(0, b.len() - 1);
        match b[b.len() - 1] {
            Entry::Dir(c) => if is_removable(c) {
                entries_remain(b_init, a)
            } else {
                &&& a.len() > 0
                &&& a[a.len() - 1] is Dir
                &&& remains(c, a[a.len() - 1]->Dir_0)
                &&& entries_remain(b_init, a.subrange(0, a.len() - 1))
            },
            Entry::Other => {
                &&& a.len() > 0
                &&& a[a.len() - 1] is Other
                &&& entries_remain(b_init, a.subrange(0, a.len() - 1))
            },
        }
    }
}

/// What is left of a tree holds no removable directory below its top, and
/// its top is removable only if it was before.
proof fn lemma_remains_nothing_removable<P>(before: DirNode<P>, after: DirNode<P>)
    requires
        remains(before, after),
    ensures
        forall|k: int| 0 <= k < subdirs(after).len() ==> !is_removable(#[trigger] subdirs(after)[k]),
        !is_removable(before) ==> !is_removable(after),
    decreases before,
{
    lemma_entries_remain_nothing_removable(before.entries@, after.entries@);
    assert(subdirs(after) == entries_subdirs(after.entries@));
}

proof fn lemma_entries_remain_nothing_removable<P>(b: Seq<Entry<P>>, a: Seq<Entry<P>>)
    requires
        entries_remain(b, a),
    ensures
        forall|k: int|
            0 <= k < entries_subdirs(a).len() ==> !is_removable(#[trigger] entries_subdirs(a)[k]),
        !all_removable(b) ==> !all_removable(a),
    decreases b,
{
    if b.len() > 0 {
        let b_init = b.subrange(0, b.len() - 1);
        match b[b.len() - 1] {
            Entry::Dir(c) => {
                if is_removable(c) {
                    lemma_entries_remain_nothing_removable(b_init, a);
                } else {
                    let a_init = a.subrange(0, a.len() - 1);
                    let c2 = a[a.len() - 1]->Dir_0;
                    lemma_entries_remain_nothing_removable(b_init, a_init);
                    lemma_remains_nothing_removable(c, c2);
                    let x = entries_subdirs(a_init);
                    let y = subdirs(c2).push(c2);
                    assert(entries_subdirs(a) == x + y);
                    assert forall|k: int| 0 <= k < (x + y).len() implies !is_removable(
                        #[trigger] (x + y)[k],
                    ) by {
                        if k >= x.len() && k < x.len() + subdirs(c2).len() {
                            assert((x + y)[k] == subdirs(c2)[k - x.len()]);
                        }
                    }
                }
            },
            Entry::Other => {
                let a_init = a.subrange(0, a.len() - 1);
                lemma_entries_remain_nothing_removable(b_init, a_init);
                assert(entries_subdirs(a) =~= entries_subdirs(a_init));
            },
        }
    }
}

/// Running again on what a real run left behind lists nothing: the
/// directories it removed are gone, and no directory that stayed has become
/// removable.
pub proof fn lemma_second_run_lists_nothing<P>(root: DirNode<P>, after: DirNode<P>)
    requires
        remains(root, after),
    ensures
        removal_order(after) == Seq::<P>::empty(),
{
    let f = |x: DirNode<P>| is_removable(x);
    lemma_remains_nothing_removable(root, after);
    let l = subdirs(after).filter(f);
    if l.len() > 0 {
        subdirs(after).lemma_filter_pred(f, 0);
        assert(l.contains(l[0]));
        subdirs(after).lemma_filter_contains_rev(f, l[0]);
    }
    assert(removal_order(after) =~= Seq::<P>::empty());
}

/// Every entry of `x` is a directory.
pub open spec fn holds_only_dirs<P>(x: DirNode<P>) -> bool {
    forall|i: int| 0 <= i < x.entries@.len() ==> #[trigger] x.entries@[i] is Dir
}

/// Entries that are all removable directories are all directories.
proof fn lemma_all_removable_dirs<P>(s: Seq<Entry<P>>)
    requires
        all_removable(s),
    ensures
        forall|i: int| 0 <= i < s.len() ==> #[trigger] s[i] is Dir,
    decreases s.len(),
{
    if s.len() > 0 {
        let init = s.subrange(0, s.len() - 1);
        lemma_all_removable_dirs(init);
        assert forall|i: int| 0 <= i < s.len() implies #[trigger] s[i] is Dir by {
            if i < s.len() - 1 {
                assert(s[i] == init[i]);
            }
        }
    }
}

/// A directory is removable exactly when neither it nor any directory below
/// it holds anything but directories: no file, link or other entry lies
/// anywhere inside it.
pub proof fn lemma_removable_iff_only_dirs<P>(d: DirNode<P>)
    ensures
        is_removable(d) <==> forall|k: int|
            0 <= k < subdirs(d).push(d).len() ==> holds_only_dirs(#[trigger] subdirs(d).push(d)[k]),
    decreases d, 1int,
{
    let t = subdirs(d).push(d);
    if is_removable(d) {
        lemma_below_removable(d);
        assert forall|k: int| 0 <= k < t.len() implies holds_only_dirs(#[trigger] t[k]) by {
            lemma_all_removable_dirs(t[k].entries@);
        }
    }
    if forall|k: int| 0 <= k < t.len() ==> holds_only_dirs(#[trigger] t[k]) {
        assert(t[t.len() - 1] == d);
        assert(subdirs(d) == entries_subdirs(d.entries@));
        assert forall|k: int| 0 <= k < subdirs(d).len() implies holds_only_dirs(
            #[trigger] subdirs(d)[k],
        ) by {
            assert(t[k] == subdirs(d)[k]);
        }
        lemma_entries_only_dirs_removable(d.entries@);
    }
}

/// Entries that are all directories, with only directories in and below
/// them, are all removable.
proof fn lemma_entries_only_dirs_removable<P>(s: Seq<Entry<P>>)
    requires
        forall|i: int| 0 <= i < s.len() ==> #[trigger] s[i] is Dir,
        forall|k: int|
            0 <= k < entries_subdirs(s).len() ==> holds_only_dirs(#[trigger] entries_subdirs(s)[k]),
    ensures
        all_removable(s),
    decreases s, 0int,
{
    if s.len() > 0 {
        let init = s.subrange(0, s.len() - 1);
        assert(s[s.len() - 1] is Dir);
        let c = s[s.len() - 1]->Dir_0;
        let x = entries_subdirs(init);
        let y = subdirs(c).push(c);
        assert(entries_subdirs(s) == x + y);
        assert forall|i: int| 0 <= i < init.len() implies #[trigger] init[i] is Dir by {
            assert(init[i] == s[i]);
        }
        assert forall|k: int| 0 <= k < x.len() implies holds_only_dirs(#[trigger] x[k]) by {
            assert((x + y)[k] == x[k]);
        }
        lemma_entries_only_dirs_removable(init);
        assert forall|k: int| 0 <= k < y.len() implies holds_only_dirs(#[trigger] y[k]) by {
            assert((x + y)[x.len() + k] == y[k]);
        }
        lemma_removable_iff_only_dirs(c);
    }
}

/// Keeping some items keeps distinct keys distinct.
proof fn lemma_filter_keys_distinct<A, B>(s: Seq<A>, f: spec_fn(A) -> bool, key: spec_fn(A) -> B)
    requires
        s.map_values(key).no_duplicates(),
    ensures
        s.filter(f).map_values(key).no_duplicates(),
    decreases s.len(),
{
    reveal(Seq::filter);
    if s.len() > 0 {
        let init = s.drop_last();
        assert forall|i: int, j: int|
            0 <= i < init.map_values(key).len() && 0 <= j < init.map_values(key).len() && i != j
            implies init.map_values(key)[i] != init.map_values(key)[j] by {
            assert(init.map_values(key)[i] == s.map_values(key)[i]);
            assert(init.map_values(key)[j] == s.map_values(key)[j]);
        }
        lemma_filter_keys_distinct(init, f, key);
        let l = init.filter(f);
        if f(s.last()) {
            assert(s.filter(f) == l.push(s.last()));
            assert forall|i: int| 0 <= i < l.len() implies key(#[trigger] l[i]) != key(s.last()) by {
                assert(l.contains(l[i]));
                init.lemma_filter_contains_rev(f, l[i]);
                let m = choose|m: int| 0 <= m < init.len() && init[m] == l[i];
                assert(s.map_values(key)[m] == key(l[i]));
                assert(s.map_values(key)[s.len() - 1] == key(s.last()));
            }
            let lk = s.filter(f).map_values(key);
            assert forall|i: int, j: int| 0 <= i < lk.len() && 0 <= j < lk.len() && i != j implies lk[i]
                != lk[j] by {
                if i < l.len() && j < l.len() {
                    assert(lk[i] == l.map_values(key)[i]);
                    assert(lk[j] == l.map_values(key)[j]);
                }
            }
        } else {
            assert(s.filter(f) == l);
        }
    }
}

/// Bottom-up order, on paths: where a directory `e` lies below a directory
/// `d` and both are listed, the path of `e` comes strictly before that of `d`.
pub proof fn lemma_below_listed_before<P>(root: DirNode<P>, d: DirNode<P>, e: DirNode<P>, i: int, j: int)
    requires
        paths_distinct(root),
        subdirs(root).contains(d),
        subdirs(d).contains(e),
        0 <= i < removal_order(root).len(),
        0 <= j < removal_order(root).len(),
        removal_order(root)[i] == e.path,
        removal_order(root)[j] == d.path,
    ensures
        i < j,
{
    let f = |x: DirNode<P>| is_removable(x);
    let key = |x: DirNode<P>| x.path;
    let s = subdirs(root);
    let l = removable_below(root);
    let paths = s.map_values(key).push(root.path);
    assert forall|p: int, q: int|
        0 <= p < s.map_values(key).len() && 0 <= q < s.map_values(key).len() && p != q
        implies s.map_values(key)[p] != s.map_values(key)[q] by {
        assert(paths[p] == s.map_values(key)[p]);
        assert(paths[q] == s.map_values(key)[q]);
    }
    lemma_filter_keys_distinct(s, f, key);
    // the node listed at `j` is `d`
    assert(l.contains(l[j]));
    s.lemma_filter_contains_rev(f, l[j]);
    let a = choose|a: int| 0 <= a < s.len() && s[a] == l[j];
    let b = choose|b: int| 0 <= b < s.len() && s[b] == d;
    assert(s.map_values(key)[a] == s.map_values(key)[b]);
    assert(l[j] == d);
    // everything below `d` is listed right before it
    lemma_listed_after_everything_below(root, j);
    let k = subdirs(d).len();
    let m = choose|m: int| 0 <= m < k && subdirs(d)[m] == e;
    assert(l.subrange(j - k, j)[m] == e);
    assert(l[j - k + m] == e);
    assert(removal_order(root)[j - k + m] == e.path);
    assert(l.map_values(key)[i] == l.map_values(key)[j - k + m]);
}

} // verus!
