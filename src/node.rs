use vstd::prelude::*;

verus! {

/// What one slot of a forest holds, as contracts see it.
pub struct Node<T> {
    pub value: T,
    /// Link to the parent record; it does not keep the parent alive.
    pub parent: Option<usize>,
    /// Links to the children, in insertion order; they keep nothing alive.
    pub children: Seq<usize>,
    /// Number of owning handles.
    pub owners: nat,
    /// Number of open shared guards.
    pub readers: nat,
    /// Whether an exclusive guard is open.
    pub writer: bool,
}

/// A forest as a sequence of slots; a vacant slot is an expired record.
pub type Slots<T> = Seq<Option<Node<T>>>;

pub open spec fn is_live<T>(s: Slots<T>, i: int) -> bool {
    0 <= i < s.len() && s[i] is Some
}

pub open spec fn node<T>(s: Slots<T>, i: int) -> Node<T> {
    s[i]->Some_0
}

/// The parent of `i`, when the link is present and its target is alive.
pub open spec fn live_parent<T>(s: Slots<T>, i: int) -> Option<usize> {
    match node(s, i).parent {
        Some(p) => if is_live(s, p as int) {
            Some(p)
        } else {
            None
        },
        None => None,
    }
}

/// The live ancestors of `i`, nearest first, following at most `fuel` links.
pub open spec fn ancestors<T>(s: Slots<T>, i: int, fuel: nat) -> Seq<usize>
    decreases fuel,
{
    if fuel == 0 {
        seq![]
    } else {
        match live_parent(s, i) {
            Some(p) => seq![p] + ancestors(s, p as int, (fuel - 1) as nat),
            None => seq![],
        }
    }
}

/// The ancestor chain that the walks upward follow: at most one link per slot.
pub open spec fn parent_chain<T>(s: Slots<T>, i: int) -> Seq<usize> {
    ancestors(s, i, s.len())
}

/// The entries of `cs` whose records are alive, in order.
pub open spec fn live_only<T>(s: Slots<T>, cs: Seq<usize>) -> Seq<usize>
    decreases cs.len(),
{
    if cs.len() == 0 {
        seq![]
    } else {
        let rest = live_only(s, cs.drop_last());
        if is_live(s, cs.last() as int) {
            rest.push(cs.last())
        } else {
            rest
        }
    }
}

/// The live children of `i`, in insertion order.
pub open spec fn live_children<T>(s: Slots<T>, i: int) -> Seq<usize> {
    live_only(s, node(s, i).children)
}

/// How many times `x` occurs in `cs`.
pub open spec fn occ(cs: Seq<usize>, x: usize) -> nat
    decreases cs.len(),
{
    if cs.len() == 0 {
        0
    } else {
        occ(cs.drop_last(), x) + if cs.last() == x {
            1nat
        } else {
            0nat
        }
    }
}

/// `cs` without any occurrence of `x`.
pub open spec fn remove_all(cs: Seq<usize>, x: usize) -> Seq<usize>
    decreases cs.len(),
{
    if cs.len() == 0 {
        seq![]
    } else {
        let rest = remove_all(cs.drop_last(), x);
        if cs.last() == x {
            rest
        } else {
            rest.push(cs.last())
        }
    }
}

/// The live descendants of `i` in pre-order, descending at most `fuel` levels.
pub open spec fn descendants<T>(s: Slots<T>, i: int, fuel: nat) -> Seq<usize>
    decreases fuel, 0nat,
{
    if fuel == 0 {
        seq![]
    } else {
        descendants_of_list(s, node(s, i).children, (fuel - 1) as nat)
    }
}

/// Each live entry of `cs` followed by its own descendants, in order.
pub open spec fn descendants_of_list<T>(s: Slots<T>, cs: Seq<usize>, fuel: nat) -> Seq<usize>
    decreases fuel, cs.len() + 1,
{
    if cs.len() == 0 {
        seq![]
    } else {
        let front = descendants_of_list(s, cs.drop_last(), fuel);
        let c = cs.last();
        if is_live(s, c as int) {
            front + seq![c] + descendants(s, c as int, fuel)
        } else {
            front
        }
    }
}

/// The subtree walk below `i`: deep enough to reach every descendant of an acyclic forest.
pub open spec fn subtree<T>(s: Slots<T>, i: int) -> Seq<usize> {
    descendants(s, i, s.len())
}

/// No guard of any kind is open on the record.
pub open spec fn unborrowed<T>(n: Node<T>) -> bool {
    n.readers == 0 && !n.writer
}

/// A walk that takes each record of `ids` exclusively, while `i` itself is held,
/// meets no conflict: it never comes back to `i` or to a record it already holds,
/// and no guard is open on any record it takes.
pub open spec fn walk_ok<T>(s: Slots<T>, i: int, ids: Seq<usize>) -> bool {
    &&& !ids.contains(i as usize)
    &&& ids.no_duplicates()
    &&& forall|k: int|
        #![trigger ids[k]]
        0 <= k < ids.len() ==> is_live(s, ids[k] as int) && unborrowed(node(s, ids[k] as int))
}

/// The live parent of `i` as a walk of at most one record.
pub open spec fn parent_ids<T>(s: Slots<T>, i: int) -> Seq<usize> {
    match live_parent(s, i) {
        Some(p) => seq![p],
        None => seq![],
    }
}

/// Every link points inside the forest.
pub open spec fn links_in_bounds<T>(s: Slots<T>) -> bool {
    forall|i: int|
        #![trigger s[i]]
        is_live(s, i) ==> {
            &&& (node(s, i).parent matches Some(p) ==> p < s.len())
            &&& forall|k: int|
                0 <= k < node(s, i).children.len() ==> #[trigger] node(s, i).children[k] < s.len()
        }
}

/// A live record is listed exactly once by its live parent, and a live record
/// listed by a live parent has that parent.
pub open spec fn links_consistent<T>(s: Slots<T>) -> bool {
    &&& forall|c: int|
        #![trigger live_parent(s, c)]
        is_live(s, c) && live_parent(s, c) is Some ==> occ(
            node(s, live_parent(s, c)->Some_0 as int).children,
            c as usize,
        ) == 1
    &&& forall|p: int, k: int|
        #![trigger node(s, p).children[k]]
        is_live(s, p) && 0 <= k < node(s, p).children.len() && is_live(
            s,
            node(s, p).children[k] as int,
        ) ==> node(s, node(s, p).children[k] as int).parent == Some(p as usize)
}

/// A live record has an owner or an open guard.
pub open spec fn held<T>(s: Slots<T>) -> bool {
    forall|i: int|
        #![trigger s[i]]
        is_live(s, i) ==> node(s, i).owners > 0 || node(s, i).readers > 0 || node(s, i).writer
}

pub open spec fn well_formed<T>(s: Slots<T>) -> bool {
    &&& s.len() <= usize::MAX
    &&& links_in_bounds(s)
    &&& links_consistent(s)
    &&& held(s)
}

/// Two views of a record that agree on everything but the value.
pub open spec fn same_shape<T>(a: Node<T>, b: Node<T>) -> bool {
    &&& a.parent == b.parent
    &&& a.children == b.children
    &&& a.owners == b.owners
    &&& a.readers == b.readers
    &&& a.writer == b.writer
}

/// `s2` is `s1` with `f` applied to the value of each record of `ids`, and nothing else changed.
pub open spec fn values_mapped<T, F: Fn(T) -> T>(
    s1: Slots<T>,
    s2: Slots<T>,
    ids: Seq<usize>,
    f: F,
) -> bool {
    &&& s2.len() == s1.len()
    &&& forall|i: int| #![trigger s2[i]] 0 <= i < s1.len() ==> (s1[i] is Some <==> s2[i] is Some)
    &&& forall|i: int|
        #![trigger s2[i]]
        is_live(s1, i) ==> {
            &&& same_shape(node(s1, i), node(s2, i))
            &&& if ids.contains(i as usize) {
                f.ensures((node(s1, i).value,), node(s2, i).value)
            } else {
                node(s2, i).value == node(s1, i).value
            }
        }
}

/// The values met on a walk over `ids`.
pub open spec fn values_of<T>(s: Slots<T>, ids: Seq<usize>) -> Seq<T> {
    ids.map_values(|i: usize| node(s, i as int).value)
}

/// `outs` is a trace of the inherited lookup over `vals` (a record's value, then its
/// ancestors' values, nearest first): `outs[j]` is what level `j` resolved to. At the
/// top level `try_get` answers, or there is nothing above and `fallback` gets `None`;
/// below it `try_get` gives `None` and `fallback` combines the level's own value with
/// the result from the level above.
pub open spec fn lookup_trace<T, U, F: Fn(&T) -> Option<U>, G: Fn(&T, Option<U>) -> U>(
    try_get: F,
    fallback: G,
    vals: Seq<T>,
    outs: Seq<U>,
) -> bool
    decreases vals.len(),
{
    if vals.len() == 0 || outs.len() == 0 {
        false
    } else if outs.len() == 1 && try_get.ensures((&vals[0],), Some(outs[0])) {
        true
    } else if !try_get.ensures((&vals[0],), None) {
        false
    } else if vals.len() == 1 {
        outs.len() == 1 && fallback.ensures((&vals[0], None), outs[0])
    } else {
        outs.len() > 1 && lookup_trace(try_get, fallback, vals.drop_first(), outs.drop_first())
            && fallback.ensures((&vals[0], Some(outs[1])), outs[0])
    }
}

/// `r` is an outcome of the inherited lookup over `vals`.
pub open spec fn resolves<T, U, F: Fn(&T) -> Option<U>, G: Fn(&T, Option<U>) -> U>(
    try_get: F,
    fallback: G,
    vals: Seq<T>,
    r: U,
) -> bool {
    exists|outs: Seq<U>|
        #[trigger] lookup_trace(try_get, fallback, vals, outs) && outs.len() > 0 && outs[0] == r
}

} // verus!
