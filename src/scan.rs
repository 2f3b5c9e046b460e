//! The scan over a directory tree, and the remover's plan.
use vstd::prelude::*;
use crate::tree::{
    DirNode, Entry, is_removable, all_removable, subdirs, entries_subdirs, listed,
    removal_order, subtree_order,
};

verus! {

broadcast use vstd::seq_lib::group_seq_properties;

/// Listing distributes over concatenation.
pub proof fn lemma_listed_add<P>(a: Seq<DirNode<P>>, b: Seq<DirNode<P>>)
    ensures
        listed(a + b) == listed(a) + listed(b),
{
    let f = |x: DirNode<P>| is_removable(x);
    Seq::filter_distributes_over_add(a, b, f);
    assert(listed(a + b) =~= listed(a) + listed(b));
}

/// One more entry extends the removability and the listing of a prefix.
proof fn lemma_entries_step<P>(s: Seq<Entry<P>>, i: int)
    requires
        0 <= i < s.len(),
    ensures
        all_removable(s.subrange(0, i + 1)) == (all_removable(s.subrange(0, i)) && match s[i] {
            Entry::Dir(c) => is_removable(c),
            Entry::Other => false,
        }),
        listed(entries_subdirs(s.subrange(0, i + 1))) == listed(entries_subdirs(s.subrange(0, i)))
            + match s[i] {
            Entry::Dir(c) => subtree_order(c),
            Entry::Other => seq![],
        },
{
    let t = s.subrange(0, i + 1);
    assert(t.subrange(0, i) =~= s.subrange(0, i));
    lemma_listed_add(entries_subdirs(s.subrange(0, i)), match s[i] {
        Entry::Dir(c) => subdirs(c).push(c),
        Entry::Other => seq![],
    });
    if let Entry::Other = s[i] {
        assert(listed(Seq::<DirNode<P>>::empty()) =~= seq![]);
    }
}

/// A subtree lists what lies below its top, then the top if it is removable.
pub proof fn lemma_subtree_order<P>(d: DirNode<P>)
    ensures
        subtree_order(d) == removal_order(d) + if is_removable(d) {
            seq![d.path]
        } else {
            seq![]
        },
{
    lemma_listed_add(subdirs(d), seq![d]);
    assert(subdirs(d).push(d) =~= subdirs(d) + seq![d]);
    let e = Seq::<DirNode<P>>::empty();
    assert(seq![d] =~= e.push(d));
    e.lemma_filter_push(d, |x: DirNode<P>| is_removable(x));
    assert(e.filter(|x: DirNode<P>| is_removable(x)) =~= e) by {
        reveal(Seq::filter);
    }
    if !is_removable(d) {
        assert(listed(seq![d]) =~= seq![]);
    } else {
        assert(listed(seq![d]) =~= seq![d.path]);
    }
}

/// The items of `v` in reverse order.
fn reversed<T>(v: Vec<T>) -> (r: Vec<T>)
    ensures
        r@.len() == v@.len(),
        forall|k: int| 0 <= k < v@.len() ==> r@[k] == v@[v@.len() - 1 - k],
{
    let mut v = v;
    let ghost orig = v@;
    let mut r: Vec<T> = Vec::new();
    while v.len() > 0
        invariant
            v@ == orig.subrange(0, v@.len() as int),
            r@.len() + v@.len() == orig.len(),
            forall|k: int| 0 <= k < r@.len() ==> r@[k] == orig[orig.len() - 1 - k],
        decreases v@.len(),
    {
        let x = v.pop().unwrap();
        r.push(x);
    }
    r
}

/// Scans `dir`: appends to `to_remove` every removable directory strictly
/// below it, each one after every directory below it, and tells whether `dir`
/// itself is removable. `dir` itself is never appended.
pub fn scan<P>(dir: DirNode<P>, to_remove: &mut Vec<P>) -> (removable: bool)
    ensures
        removable == is_removable(dir),
        final(to_remove)@ == old(to_remove)@ + removal_order(dir),
{
    let ghost d = dir;
    scan_entries(dir.entries, to_remove, Ghost(d))
}

/// Scans the subdirectory `dir`: appends what lies below it, then `dir`
/// itself if it is removable. `d` is the directory as it was handed in.
fn scan_node<P>(dir: DirNode<P>, to_remove: &mut Vec<P>, Ghost(d): Ghost<DirNode<P>>) -> (removable:
    bool)
    requires
        dir == d,
    ensures
        removable == is_removable(d),
        final(to_remove)@ == old(to_remove)@ + subtree_order(d),
    decreases d, 1int,
{
    let DirNode { path, entries } = dir;
    let removable = scan_entries(entries, to_remove, Ghost(d));
    proof {
        lemma_subtree_order(d);
    }
    if removable {
        to_remove.push(path);
    }
    removable
}

/// Scans the entries of `d`, in order: appends every removable directory
/// below `d` and tells whether `d` is removable.
fn scan_entries<P>(entries: Vec<Entry<P>>, to_remove: &mut Vec<P>, Ghost(d): Ghost<DirNode<P>>) -> (
    removable: bool)
    requires
        entries == d.entries,
    ensures
        removable == is_removable(d),
        final(to_remove)@ == old(to_remove)@ + removal_order(d),
    decreases d, 0int,
{
    let ghost n = d.entries@.len() as int;
    let mut rest = reversed(entries);
    let mut removable = true;
    assert(d.entries@.subrange(0, 0) =~= seq![]);
    assert(listed(Seq::<DirNode<P>>::empty()) =~= seq![]);
    assert(old(to_remove)@ + seq![] =~= old(to_remove)@);
    while rest.len() > 0
        invariant
            n == d.entries@.len(),
            rest@.len() <= n,
            forall|k: int| 0 <= k < rest@.len() ==> rest@[k] == d.entries@[n - 1 - k],
            removable == all_removable(d.entries@.subrange(0, n - rest@.len())),
            to_remove@ == old(to_remove)@ + listed(
                entries_subdirs(d.entries@.subrange(0, n - rest@.len())),
            ),
        decreases rest@.len(),
    {
        let ghost i = n - rest@.len();
        proof {
            lemma_entries_step(d.entries@, i);
        }
        let e = rest.pop().unwrap();
        assert(e == d.entries@[i]);
        match e {
            Entry::Dir(c) => {
                assert(decreases_to!(d => d.entries));
                assert(decreases_to!(d.entries => d.entries@));
                assert(decreases_to!(d.entries@ => d.entries@[i]));
                assert(decreases_to!(d => c));
                let sub = scan_node(c, to_remove, Ghost(c));
                if !sub {
                    removable = false;
                }
            },
            Entry::Other => {
                removable = false;
            },
        }
        assert(to_remove@ =~= old(to_remove)@ + listed(
            entries_subdirs(d.entries@.subrange(0, i + 1)),
        ));
    }
    assert(d.entries@.subrange(0, n) =~= d.entries@);
    assert(subdirs(d) == entries_subdirs(d.entries@));
    removable
}

/// The directories strictly below `root` that can be removed, each one
/// after every directory below it. `root` itself is never among them.
pub fn find_removable<P>(root: DirNode<P>) -> (r: Vec<P>)
    ensures
        r@ == removal_order(root),
{
    let mut to_remove: Vec<P> = Vec::new();
    let _ = scan(root, &mut to_remove);
    assert(to_remove@ =~= removal_order(root));
    to_remove
}

/// What the remover does with one path: report it always, delete it unless
/// this is a dry run.
pub struct Step<P> {
    pub path: P,
    pub delete: bool,
}

/// The steps for the paths `order`: each path in turn, deleted unless
/// `dry_run`.
pub open spec fn steps_for<P>(order: Seq<P>, dry_run: bool) -> Seq<Step<P>> {
    order.map_values(|p: P| Step { path: p, delete: !dry_run })
}

/// The remover's plan for `root`: every removable directory strictly below
/// it, deepest first, each reported and, unless `dry_run`, deleted.
pub fn plan<P>(root: DirNode<P>, dry_run: bool) -> (r: Vec<Step<P>>)
    ensures
        r@ == steps_for(removal_order(root), dry_run),
{
    let order = find_removable(root);
    let ghost o = order@;
    let mut rest = reversed(order);
    let mut steps: Vec<Step<P>> = Vec::new();
    while rest.len() > 0
        invariant
            rest@.len() <= o.len(),
            forall|k: int| 0 <= k < rest@.len() ==> rest@[k] == o[o.len() - 1 - k],
            steps@ == steps_for(o.subrange(0, o.len() - rest@.len()), dry_run),
        decreases rest@.len(),
    {
        let ghost i = o.len() - rest@.len();
        let path = rest.pop().unwrap();
        steps.push(Step { path, delete: !dry_run });
        assert(steps@ =~= steps_for(o.subrange(0, i + 1), dry_run));
    }
    assert(o.subrange(0, o.len() as int) =~= o);
    steps
}

} // verus!
