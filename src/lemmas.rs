use vstd::prelude::*;

use crate::forest::{detached, reparented};
use crate::node::{
    descendants, descendants_of_list, ancestors, held, is_live, links_consistent, links_in_bounds, live_children, live_only, live_parent, node,
    occ, remove_all, well_formed, Slots,
};

verus! {

pub proof fn lemma_occ_push(cs: Seq<usize>, y: usize, x: usize)
    ensures
        occ(cs.push(y), x) == occ(cs, x) + if y == x {
            1nat
        } else {
            0nat
        },
{
    assert(cs.push(y).drop_last() =~= cs);
}

/// A value occurs in a sequence exactly when it is counted there.
pub proof fn lemma_occ_absent(cs: Seq<usize>, x: usize)
    ensures
        occ(cs, x) == 0 <==> !cs.contains(x),
    decreases cs.len(),
{
    if cs.len() > 0 {
        lemma_occ_absent(cs.drop_last(), x);
        if cs.drop_last().contains(x) {
            let k = choose|k: int| 0 <= k < cs.drop_last().len() && cs.drop_last()[k] == x;
            assert(cs[k] == x);
        }
        if cs.contains(x) && cs.last() != x {
            let k = choose|k: int| 0 <= k < cs.len() && cs[k] == x;
            assert(cs.drop_last()[k] == x);
        }
        if cs.last() == x {
            assert(cs[cs.len() - 1] == x);
        }
    }
}

/// Two positions that hold the same value count twice.
pub proof fn lemma_occ_two(cs: Seq<usize>, a: int, b: int)
    requires
        0 <= a < b < cs.len(),
        cs[a] == cs[b],
    ensures
        occ(cs, cs[a]) >= 2,
    decreases cs.len(),
{
    if b == cs.len() - 1 {
        assert(cs.drop_last()[a] == cs[a]);
        lemma_occ_absent(cs.drop_last(), cs[a]);
    } else {
        assert(cs.drop_last()[a] == cs[a]);
        assert(cs.drop_last()[b] == cs[b]);
        lemma_occ_two(cs.drop_last(), a, b);
    }
}

/// A sequence in which every entry is counted once holds no value twice.
pub proof fn lemma_occ_once_no_duplicates(cs: Seq<usize>)
    requires
        forall|k: int| 0 <= k < cs.len() ==> occ(cs, #[trigger] cs[k]) == 1,
    ensures
        cs.no_duplicates(),
{
    assert forall|a: int, b: int| 0 <= a < cs.len() && 0 <= b < cs.len() && a != b implies cs[a]
        != cs[b] by {
        if cs[a] == cs[b] {
            if a < b {
                lemma_occ_two(cs, a, b);
            } else {
                lemma_occ_two(cs, b, a);
            }
        }
    }
}

pub proof fn lemma_occ_remove_all(cs: Seq<usize>, x: usize, y: usize)
    ensures
        occ(remove_all(cs, x), y) == if y == x {
            0
        } else {
            occ(cs, y)
        },
    decreases cs.len(),
{
    if cs.len() > 0 {
        lemma_occ_remove_all(cs.drop_last(), x, y);
        if cs.last() != x {
            lemma_occ_push(remove_all(cs.drop_last(), x), cs.last(), y);
        }
    }
}

/// Removing a value keeps only entries that were there.
pub proof fn lemma_remove_all_bounds(cs: Seq<usize>, x: usize)
    ensures
        forall|k: int|
            0 <= k < remove_all(cs, x).len() ==> cs.contains(#[trigger] remove_all(cs, x)[k]),
    decreases cs.len(),
{
    if cs.len() > 0 {
        lemma_remove_all_bounds(cs.drop_last(), x);
        let r = remove_all(cs, x);
        let rest = remove_all(cs.drop_last(), x);
        assert forall|k: int| 0 <= k < r.len() implies cs.contains(#[trigger] r[k]) by {
            if k < rest.len() {
                assert(rest.contains(rest[k]));
                let j = choose|j: int| 0 <= j < cs.drop_last().len() && cs.drop_last()[j] == rest[k];
                assert(cs[j] == r[k]);
            } else {
                assert(cs[cs.len() - 1] == r[k]);
            }
        }
    }
}

/// Keeping the live entries keeps every occurrence of a live record.
pub proof fn lemma_occ_live_only<T>(s: Slots<T>, cs: Seq<usize>, x: usize)
    requires
        is_live(s, x as int),
    ensures
        occ(live_only(s, cs), x) == occ(cs, x),
    decreases cs.len(),
{
    if cs.len() > 0 {
        lemma_occ_live_only(s, cs.drop_last(), x);
        if is_live(s, cs.last() as int) {
            lemma_occ_push(live_only(s, cs.drop_last()), cs.last(), x);
        }
    }
}

/// Keeping the live entries keeps only live records that were there.
pub proof fn lemma_live_only_members<T>(s: Slots<T>, cs: Seq<usize>)
    ensures
        forall|k: int|
            0 <= k < live_only(s, cs).len() ==> is_live(s, #[trigger] live_only(s, cs)[k] as int)
                && cs.contains(live_only(s, cs)[k]),
    decreases cs.len(),
{
    if cs.len() > 0 {
        lemma_live_only_members(s, cs.drop_last());
        let r = live_only(s, cs);
        let rest = live_only(s, cs.drop_last());
        assert forall|k: int| 0 <= k < r.len() implies is_live(s, #[trigger] r[k] as int)
            && cs.contains(r[k]) by {
            if k < rest.len() {
                assert(rest[k] == r[k]);
                let j = choose|j: int| 0 <= j < cs.drop_last().len() && cs.drop_last()[j] == rest[k];
                assert(cs[j] == r[k]);
            } else {
                assert(cs[cs.len() - 1] == r[k]);
            }
        }
    }
}

/// A change that keeps every link of the records that stay alive, and brings no
/// record to life, keeps the links well formed.
pub proof fn lemma_links_kept<T>(s1: Slots<T>, s2: Slots<T>)
    requires
        links_in_bounds(s1),
        links_consistent(s1),
        s2.len() == s1.len(),
        forall|i: int|
            #![trigger s2[i]]
            is_live(s2, i) ==> is_live(s1, i) && node(s2, i).parent == node(s1, i).parent
                && node(s2, i).children == node(s1, i).children,
    ensures
        links_in_bounds(s2),
        links_consistent(s2),
{
    assert forall|i: int| #![trigger s2[i]] is_live(s2, i) implies {
        &&& (node(s2, i).parent matches Some(p) ==> p < s2.len())
        &&& forall|k: int|
            0 <= k < node(s2, i).children.len() ==> #[trigger] node(s2, i).children[k] < s2.len()
    } by {
        assert(s1[i] is Some);
        assert forall|k: int| 0 <= k < node(s2, i).children.len() implies #[trigger] node(
            s2,
            i,
        ).children[k] < s2.len() by {
            assert(node(s1, i).children[k] == node(s2, i).children[k]);
        }
    }
    assert forall|c: int|
        #![trigger live_parent(s2, c)]
        is_live(s2, c) && live_parent(s2, c) is Some implies occ(
            node(s2, live_parent(s2, c)->Some_0 as int).children,
            c as usize,
        ) == 1 by {
        assert(s2[c] is Some);
        let p = live_parent(s2, c)->Some_0 as int;
        assert(s2[p] is Some);
        assert(live_parent(s1, c) == live_parent(s2, c));
    }
    assert forall|p: int, k: int|
        #![trigger node(s2, p).children[k]]
        is_live(s2, p) && 0 <= k < node(s2, p).children.len() && is_live(
            s2,
            node(s2, p).children[k] as int,
        ) implies node(s2, node(s2, p).children[k] as int).parent == Some(p as usize) by {
        assert(s2[p] is Some);
        assert(node(s1, p).children[k] == node(s2, p).children[k]);
        let c = node(s2, p).children[k] as int;
        assert(s2[c] is Some);
    }
}

/// The children list that `j` has after `i` is moved under `q`.
pub open spec fn kids_after<T>(s: Slots<T>, i: int, q: Option<usize>, j: int) -> Seq<usize> {
    let c1 = if live_parent(s, i) == Some(j as usize) {
        remove_all(node(s, j).children, i as usize)
    } else {
        node(s, j).children
    };
    if q == Some(j as usize) {
        c1.push(i as usize)
    } else {
        c1
    }
}

/// What moving `i` under `q` does to each record.
pub proof fn lemma_reparented_shape<T>(s: Slots<T>, i: int, q: Option<usize>)
    requires
        well_formed(s),
        is_live(s, i),
        q matches Some(qq) ==> is_live(s, qq as int),
    ensures
        reparented(s, i, q).len() == s.len(),
        forall|j: int|
            #![trigger reparented(s, i, q)[j]]
            0 <= j < s.len() ==> (reparented(s, i, q)[j] is Some <==> s[j] is Some),
        forall|j: int|
            #![trigger reparented(s, i, q)[j]]
            is_live(s, j) ==> {
                let n1 = node(s, j);
                let n2 = node(reparented(s, i, q), j);
                &&& n2.parent == (if j == i {
                    q
                } else {
                    n1.parent
                })
                &&& n2.children == kids_after(s, i, q, j)
                &&& n2.value == n1.value
                &&& n2.owners == n1.owners
                &&& n2.readers == n1.readers
                &&& n2.writer == n1.writer
            },
{
    let sa = detached(s, i);
    let s2 = reparented(s, i, q);
    assert forall|j: int| #![trigger s2[j]] is_live(s, j) implies {
        let n1 = node(s, j);
        let n2 = node(s2, j);
        &&& n2.parent == (if j == i {
            q
        } else {
            n1.parent
        })
        &&& n2.children == kids_after(s, i, q, j)
        &&& n2.value == n1.value
        &&& n2.owners == n1.owners
        &&& n2.readers == n1.readers
        &&& n2.writer == n1.writer
    } by {
        if live_parent(s, i) == Some(j as usize) {
            assert(node(sa, j).children == remove_all(node(s, j).children, i as usize));
        } else {
            assert(node(sa, j).children == node(s, j).children);
        }
    }
}

/// Moving a record keeps the forest well formed; afterwards the new parent lists it
/// once and a former parent that is not the new one does not list it.
pub proof fn lemma_reparented_wf<T>(s: Slots<T>, i: int, q: Option<usize>)
    requires
        well_formed(s),
        is_live(s, i),
        q matches Some(qq) ==> is_live(s, qq as int),
    ensures
        well_formed(reparented(s, i, q)),
        q matches Some(qq) ==> occ(live_children(reparented(s, i, q), qq as int), i as usize) == 1,
        live_parent(s, i) matches Some(p) ==> (q != Some(p) ==> occ(
            live_children(reparented(s, i, q), p as int),
            i as usize,
        ) == 0),
{
    let s2 = reparented(s, i, q);
    let iu = i as usize;
    lemma_reparented_shape(s, i, q);
    // A live record that lists i before the move is i's live parent.
    assert forall|j: int| is_live(s, j) && #[trigger] node(s, j).children.contains(iu) implies live_parent(
        s,
        i,
    ) == Some(j as usize) by {
        let k = choose|k: int| 0 <= k < node(s, j).children.len() && node(s, j).children[k] == iu;
        assert(node(s, j).children[k] == iu);
    }
    // After the move, a child list holds i only where the new parent's does.
    assert forall|j: int| is_live(s, j) && q != Some(j as usize) implies occ(
        #[trigger] kids_after(s, i, q, j),
        iu,
    ) == 0 by {
        if live_parent(s, i) == Some(j as usize) {
            lemma_occ_remove_all(node(s, j).children, iu, iu);
        } else {
            lemma_occ_absent(node(s, j).children, iu);
        }
    }
    // Entries other than i come from the list before the move, counted as often.
    assert forall|j: int, x: usize| is_live(s, j) && x != iu implies #[trigger] occ(
        kids_after(s, i, q, j),
        x,
    ) == occ(node(s, j).children, x) by {
        let c1 = if live_parent(s, i) == Some(j as usize) {
            remove_all(node(s, j).children, iu)
        } else {
            node(s, j).children
        };
        lemma_occ_remove_all(node(s, j).children, iu, x);
        lemma_occ_push(c1, iu, x);
    }
    assert forall|j: int, k: int|
        is_live(s, j) && 0 <= k < kids_after(s, i, q, j).len() && #[trigger] kids_after(
            s,
            i,
            q,
            j,
        )[k] != iu implies node(s, j).children.contains(kids_after(s, i, q, j)[k]) by {
        let c1 = if live_parent(s, i) == Some(j as usize) {
            remove_all(node(s, j).children, iu)
        } else {
            node(s, j).children
        };
        lemma_remove_all_bounds(node(s, j).children, iu);
        assert(k < c1.len());
        assert(kids_after(s, i, q, j)[k] == c1[k]);
        if live_parent(s, i) != Some(j as usize) {
            assert(node(s, j).children[k] == c1[k]);
        }
    }
    // Bounds.
    assert forall|j: int| #![trigger s2[j]] is_live(s2, j) implies {
        &&& (node(s2, j).parent matches Some(p) ==> p < s2.len())
        &&& forall|k: int|
            0 <= k < node(s2, j).children.len() ==> #[trigger] node(s2, j).children[k] < s2.len()
    } by {
        assert(s[j] is Some);
        assert forall|k: int| 0 <= k < node(s2, j).children.len() implies #[trigger] node(
            s2,
            j,
        ).children[k] < s2.len() by {
            let x = kids_after(s, i, q, j)[k];
            if x != iu {
                let m = choose|m: int| 0 <= m < node(s, j).children.len() && node(s, j).children[m] == x;
                assert(node(s, j).children[m] < s.len());
            }
        }
    }
    // Each live record with a live parent is listed there once.
    assert forall|x: int|
        #![trigger live_parent(s2, x)]
        is_live(s2, x) && live_parent(s2, x) is Some implies occ(
            node(s2, live_parent(s2, x)->Some_0 as int).children,
            x as usize,
        ) == 1 by {
        assert(s[x] is Some);
        let pp = live_parent(s2, x)->Some_0 as int;
        assert(s2[pp] is Some);
        assert(s[pp] is Some);
        if x == i {
            let c1 = if live_parent(s, i) == Some(pp as usize) {
                remove_all(node(s, pp).children, iu)
            } else {
                node(s, pp).children
            };
            if live_parent(s, i) == Some(pp as usize) {
                lemma_occ_remove_all(node(s, pp).children, iu, iu);
            } else {
                lemma_occ_absent(node(s, pp).children, iu);
            }
            lemma_occ_push(c1, iu, iu);
        } else {
            assert(live_parent(s, x) == live_parent(s2, x));
        }
    }
    // Each live record listed by a live parent has that parent.
    assert forall|p: int, k: int|
        #![trigger node(s2, p).children[k]]
        is_live(s2, p) && 0 <= k < node(s2, p).children.len() && is_live(
            s2,
            node(s2, p).children[k] as int,
        ) implies node(s2, node(s2, p).children[k] as int).parent == Some(p as usize) by {
        assert(s[p] is Some);
        let x = node(s2, p).children[k];
        assert(s[x as int] is Some);
        if x == iu {
            if q != Some(p as usize) {
                assert(kids_after(s, i, q, p).contains(iu));
                lemma_occ_absent(kids_after(s, i, q, p), iu);
            }
        } else {
            assert(kids_after(s, i, q, p)[k] == x);
            let m = choose|m: int| 0 <= m < node(s, p).children.len() && node(s, p).children[m] == x;
            assert(node(s, p).children[m] == x);
        }
    }
    assert(held(s2)) by {
        assert forall|j: int| #![trigger s2[j]] is_live(s2, j) implies node(s2, j).owners > 0
            || node(s2, j).readers > 0 || node(s2, j).writer by {
            assert(s[j] is Some);
        }
    }
    if let Some(qq) = q {
        assert(live_parent(s2, i) == Some(qq));
        lemma_occ_live_only(s2, node(s2, qq as int).children, iu);
    }
    if let Some(p) = live_parent(s, i) {
        if q != Some(p) {
            lemma_occ_live_only(s2, node(s2, p as int).children, iu);
        }
    }
}

/// A live record is listed once among the live children of its live parent, and
/// no record is listed twice there.
pub proof fn lemma_live_children_unique<T>(s: Slots<T>, i: int)
    requires
        well_formed(s),
        is_live(s, i),
    ensures
        live_children(s, i).no_duplicates(),
        forall|x: int|
            is_live(s, x) && #[trigger] live_parent(s, x) == Some(i as usize) ==> occ(
                live_children(s, i),
                x as usize,
            ) == 1,
{
    let cs = node(s, i).children;
    let lc = live_children(s, i);
    assert forall|x: int|
        is_live(s, x) && #[trigger] live_parent(s, x) == Some(i as usize) implies occ(lc, x as usize)
        == 1 by {
        lemma_occ_live_only(s, cs, x as usize);
    }
    lemma_live_only_members(s, cs);
    assert forall|k: int| 0 <= k < lc.len() implies occ(lc, #[trigger] lc[k]) == 1 by {
        let c = lc[k];
        assert(cs.contains(c));
        let m = choose|m: int| 0 <= m < cs.len() && cs[m] == c;
        assert(node(s, i).children[m] == c);
        assert(live_parent(s, c as int) == Some(i as usize));
        lemma_occ_live_only(s, cs, c);
    }
    lemma_occ_once_no_duplicates(lc);
}

/// Every record on an ancestor walk is alive.
pub proof fn lemma_ancestors_live<T>(s: Slots<T>, i: int, fuel: nat)
    ensures
        forall|k: int|
            0 <= k < ancestors(s, i, fuel).len() ==> is_live(s, #[trigger] ancestors(s, i, fuel)[k] as int),
    decreases fuel,
{
    if fuel > 0 {
        if let Some(p) = live_parent(s, i) {
            lemma_ancestors_live(s, p as int, (fuel - 1) as nat);
            let a = ancestors(s, i, fuel);
            let rest = ancestors(s, p as int, (fuel - 1) as nat);
            assert forall|k: int| 0 <= k < a.len() implies is_live(s, #[trigger] a[k] as int) by {
                if k > 0 {
                    assert(a[k] == rest[k - 1]);
                }
            }
        }
    }
}

/// Every record on a walk down a child list is alive and has a live parent, when
/// every live entry of the list has one.
pub proof fn lemma_descendants_of_list_parented<T>(s: Slots<T>, cs: Seq<usize>, fuel: nat)
    requires
        well_formed(s),
        forall|k: int|
            0 <= k < cs.len() && is_live(s, #[trigger] cs[k] as int) ==> live_parent(s, cs[k] as int)
                is Some,
    ensures
        forall|k: int|
            0 <= k < descendants_of_list(s, cs, fuel).len() ==> is_live(
                s,
                #[trigger] descendants_of_list(s, cs, fuel)[k] as int,
            ) && live_parent(s, descendants_of_list(s, cs, fuel)[k] as int) is Some,
    decreases fuel, cs.len() + 1,
{
    if cs.len() > 0 {
        let front = descendants_of_list(s, cs.drop_last(), fuel);
        let c = cs.last();
        assert forall|k: int|
            0 <= k < cs.drop_last().len() && is_live(s, #[trigger] cs.drop_last()[k] as int) implies live_parent(
            s,
            cs.drop_last()[k] as int,
        ) is Some by {
            assert(cs.drop_last()[k] == cs[k]);
        }
        lemma_descendants_of_list_parented(s, cs.drop_last(), fuel);
        if is_live(s, c as int) {
            assert(cs[cs.len() - 1] == c);
            lemma_descendants_parented(s, c as int, fuel);
            let d = descendants_of_list(s, cs, fuel);
            let below = descendants(s, c as int, fuel);
            assert(d == front + seq![c] + below);
            assert forall|k: int| 0 <= k < d.len() implies is_live(s, #[trigger] d[k] as int)
                && live_parent(s, d[k] as int) is Some by {
                if k < front.len() {
                    assert(d[k] == front[k]);
                } else if k == front.len() {
                    assert(d[k] == c);
                } else {
                    assert(d[k] == below[k - front.len() - 1]);
                }
            }
        }
    }
}

/// Every record on a walk below a live record is alive and has a live parent.
pub proof fn lemma_descendants_parented<T>(s: Slots<T>, i: int, fuel: nat)
    requires
        well_formed(s),
        is_live(s, i),
    ensures
        forall|k: int|
            0 <= k < descendants(s, i, fuel).len() ==> is_live(
                s,
                #[trigger] descendants(s, i, fuel)[k] as int,
            ) && live_parent(s, descendants(s, i, fuel)[k] as int) is Some,
    decreases fuel, 0nat,
{
    if fuel > 0 {
        let cs = node(s, i).children;
        assert forall|k: int| 0 <= k < cs.len() && is_live(s, #[trigger] cs[k] as int) implies live_parent(
            s,
            cs[k] as int,
        ) is Some by {
            assert(node(s, i).children[k] == cs[k]);
        }
        lemma_descendants_of_list_parented(s, cs, (fuel - 1) as nat);
    }
}

} // verus!
