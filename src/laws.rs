use vstd::prelude::*;

use crate::forest::released;
use crate::guard::guard_closed;
use crate::lemmas::{
    lemma_descendants_parented, lemma_links_kept, lemma_live_children_unique,
    lemma_live_only_members,
};
use crate::node::{
    is_live, live_children, live_parent, node, occ, subtree, unborrowed, well_formed, Node, Slots,
};

verus! {

/// Giving up the handle of one record never ends another: every other live record
/// stays alive with the same value, links and guards. In particular a child outlives
/// the handle of its parent; once the parent's last handle is gone (with no guard
/// open on it) the parent has expired, and the child's parent link resolves to nothing.
pub proof fn law_release_spares_others<T>(s1: Slots<T>, s2: Slots<T>, p: int, c: int)
    requires
        well_formed(s1),
        is_live(s1, p),
        released(s1, s2, p),
        is_live(s1, c),
        c != p,
    ensures
        is_live(s2, c),
        node(s2, c) == node(s1, c),
        node(s1, p).owners == 1 && unborrowed(node(s1, p)) ==> !is_live(s2, p),
        node(s1, p).owners == 1 && unborrowed(node(s1, p)) && node(s1, c).parent == Some(p as usize)
            ==> live_parent(s2, c) is None,
{
}

/// Once the last handle of a record is given up (with no guard open on it), no live
/// record lists it among its live children any more.
pub proof fn law_released_child_not_listed<T>(s1: Slots<T>, s2: Slots<T>, c: int, p: int)
    requires
        well_formed(s1),
        is_live(s1, c),
        node(s1, c).owners == 1,
        unborrowed(node(s1, c)),
        released(s1, s2, c),
        is_live(s2, p),
    ensures
        !live_children(s2, p).contains(c as usize),
{
    lemma_live_only_members(s2, node(s2, p).children);
    if live_children(s2, p).contains(c as usize) {
        let k = choose|k: int|
            0 <= k < live_children(s2, p).len() && live_children(s2, p)[k] == c as usize;
        assert(is_live(s2, live_children(s2, p)[k] as int));
    }
}

/// A live record with a live parent is listed exactly once among that parent's live
/// children, and no record is listed there twice.
pub proof fn law_listed_once_by_parent<T>(s: Slots<T>, n: int)
    requires
        well_formed(s),
        is_live(s, n),
        live_parent(s, n) is Some,
    ensures
        occ(live_children(s, live_parent(s, n)->Some_0 as int), n as usize) == 1,
        live_children(s, live_parent(s, n)->Some_0 as int).no_duplicates(),
{
    let p = live_parent(s, n)->Some_0 as int;
    lemma_live_children_unique(s, p);
}

/// Once the last handle of a record is given up (with no guard open on it), the walk
/// below any live record reaches neither that record nor the records it was the
/// parent of.
pub proof fn law_released_not_in_subtree<T>(s1: Slots<T>, s2: Slots<T>, c: int, p: int, d: usize)
    requires
        well_formed(s1),
        is_live(s1, c),
        node(s1, c).owners == 1,
        unborrowed(node(s1, c)),
        released(s1, s2, c),
        is_live(s2, p),
        is_live(s2, d as int) ==> node(s2, d as int).parent == Some(c as usize),
    ensures
        !subtree(s2, p).contains(c as usize),
        !subtree(s2, p).contains(d),
{
    lemma_links_kept(s1, s2);
    assert forall|j: int| #![trigger s2[j]] is_live(s2, j) implies node(s2, j).owners > 0
        || node(s2, j).readers > 0 || node(s2, j).writer by {
        assert(s1[j] is Some);
    }
    lemma_descendants_parented(s2, p, s2.len());
    let w = subtree(s2, p);
    if w.contains(c as usize) {
        let k = choose|k: int| 0 <= k < w.len() && w[k] == c as usize;
        assert(is_live(s2, w[k] as int));
    }
    if w.contains(d) {
        let k = choose|k: int| 0 <= k < w.len() && w[k] == d;
        assert(live_parent(s2, w[k] as int) is Some);
        assert(!is_live(s2, c));
    }
}

/// While a shared guard is open on a record, `mutate` on it conflicts; once the
/// only guard is ended, the record is still alive with its value, free of guards,
/// so `mutate` on it succeeds.
pub proof fn law_mutate_after_read_scope<T>(s1: Slots<T>, s2: Slots<T>, i: int)
    requires
        well_formed(s1),
        is_live(s1, i),
        node(s1, i).readers == 1,
        !node(s1, i).writer,
        node(s1, i).owners > 0,
        guard_closed(s1, s2, i, Node { readers: 0, ..node(s1, i) }),
    ensures
        !unborrowed(node(s1, i)),
        is_live(s2, i),
        unborrowed(node(s2, i)),
        node(s2, i).value == node(s1, i).value,
{
}

} // verus!
