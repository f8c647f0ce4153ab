use vstd::prelude::*;

use crate::forest::{owner_added, BorrowError, Forest, Record, TreeBox};
use crate::lemmas::{lemma_ancestors_live, lemma_links_kept, lemma_live_children_unique};
use crate::node::{
    ancestors, descendants, descendants_of_list, is_live, live_children, live_only, live_parent,
    lookup_trace, node, parent_chain, parent_ids, resolves, subtree, unborrowed, values_mapped, values_of, walk_ok,
    Slots,
};

verus! {

impl<T> Forest<T> {
    /// Applies `f` to the value of each record of `ids`, in order.
    pub(crate) fn apply_all<F: Fn(T) -> T>(&mut self, ids: &Vec<usize>, f: F)
        requires
            old(self).wf(),
            ids@.no_duplicates(),
            forall|k: int| #![trigger ids@[k]] 0 <= k < ids@.len() ==> is_live(old(self)@, ids@[k] as int),
            forall|t: T| f.requires((t,)),
        ensures
            final(self).wf(),
            values_mapped(old(self)@, final(self)@, ids@, f),
    {
        let mut k: usize = 0;
        while k < ids.len()
            invariant
                k <= ids@.len(),
                old(self).wf(),
                ids@.no_duplicates(),
                forall|j: int| #![trigger ids@[j]] 0 <= j < ids@.len() ==> is_live(old(self)@, ids@[j] as int),
                forall|t: T| f.requires((t,)),
                values_mapped(old(self)@, self@, ids@.take(k as int), f),
            decreases ids@.len() - k,
        {
            let i = ids[k];
            let ghost s0 = self@;
            let rec = self.take_record(i);
            let Record { value, parent, children, owners, readers, writer } = rec;
            let v = f(value);
            let rec2 = Record { value: v, parent, children, owners, readers, writer };
            proof {
                assert(rec2.node() == crate::node::Node { value: v, ..rec.node() });
            }
            self.put_record(i, rec2);
            proof {
                let s1 = old(self)@;
                let s2 = self@;
                let done = ids@.take(k as int);
                let next = ids@.take(k as int + 1);
                assert(next =~= done.push(i));
                assert(!done.contains(i)) by {
                    if done.contains(i) {
                        let j = choose|j: int| 0 <= j < done.len() && done[j] == i;
                        assert(ids@[j] == ids@[k as int]);
                    }
                }
                assert(is_live(s1, i as int));
                assert forall|x: int| #![trigger s2[x]] is_live(s1, x) implies {
                    &&& crate::node::same_shape(node(s1, x), node(s2, x))
                    &&& if next.contains(x as usize) {
                        f.ensures((node(s1, x).value,), node(s2, x).value)
                    } else {
                        node(s2, x).value == node(s1, x).value
                    }
                } by {
                    assert(s0[x] is Some);
                    if x == i as int {
                        assert(node(s0, x).value == node(s1, x).value);
                        assert(next[k as int] == i);
                        assert(node(s2, x) == rec2.node());
                    } else {
                        assert(next.contains(x as usize) == done.contains(x as usize));
                    }
                }
            }
            k = k + 1;
        }
        proof {
            assert(ids@.take(k as int) =~= ids@);
            lemma_links_kept(old(self)@, self@);
        }
    }

    /// Whether a walk over `ids` that holds `i` meets no conflict.
    pub(crate) fn check_walk(&self, i: usize, ids: &Vec<usize>) -> (r: bool)
        requires
            self.wf(),
            is_live(self@, i as int),
        ensures
            r == walk_ok(self@, i as int, ids@),
    {
        let n = self.len();
        let mut seen: Vec<bool> = Vec::new();
        let mut m: usize = 0;
        while m < n
            invariant
                n == self@.len(),
                m <= n,
                seen@.len() == m,
                forall|x: int| 0 <= x < m ==> !seen@[x],
            decreases n - m,
        {
            seen.push(false);
            m = m + 1;
        }
        let mut k: usize = 0;
        while k < ids.len()
            invariant
                n == self@.len(),
                is_live(self@, i as int),
                k <= ids@.len(),
                seen@.len() == n,
                forall|x: int| #![trigger seen@[x]] 0 <= x < n ==> (seen@[x] <==> ids@.take(k as int).contains(x as usize)),
                !ids@.take(k as int).contains(i),
                ids@.take(k as int).no_duplicates(),
                forall|j: int|
                    #![trigger ids@[j]]
                    0 <= j < k ==> is_live(self@, ids@[j] as int) && unborrowed(node(self@, ids@[j] as int)),
            decreases ids@.len() - k,
        {
            let x = ids[k];
            if x == i {
                proof {
                    assert(ids@[k as int] == i);
                }
                return false;
            }
            if !self.is_live(x) || !self.is_unborrowed(x) {
                return false;
            }
            if seen[x] {
                proof {
                    let j = choose|j: int| 0 <= j < k && ids@.take(k as int)[j] == x;
                    assert(ids@[j] == ids@[k as int]);
                }
                return false;
            }
            proof {
                let done = ids@.take(k as int);
                let next = ids@.take(k as int + 1);
                assert(next =~= done.push(x));
                assert forall|y: usize| next.contains(y) <==> (done.contains(y) || y == x) by {
                    if next.contains(y) {
                        let j = choose|j: int| 0 <= j < next.len() && next[j] == y;
                        if j < done.len() {
                            assert(done[j] == y);
                        }
                    }
                    if done.contains(y) {
                        let j = choose|j: int| 0 <= j < done.len() && done[j] == y;
                        assert(next[j] == y);
                    }
                    if y == x {
                        assert(next[k as int] == y);
                    }
                }
            }
            seen.set(x, true);
            k = k + 1;
        }
        proof {
            assert(ids@.take(k as int) =~= ids@);
        }
        true
    }

    /// The live ancestors of the live record `i`, nearest first.
    pub(crate) fn chain_of(&self, i: usize) -> (r: Vec<usize>)
        requires
            self.wf(),
            is_live(self@, i as int),
        ensures
            r@ == parent_chain(self@, i as int),
    {
        let mut r: Vec<usize> = Vec::new();
        let mut cur = i;
        let mut fuel = self.len();
        while fuel > 0
            invariant
                self.wf(),
                is_live(self@, cur as int),
                r@ + ancestors(self@, cur as int, fuel as nat) == parent_chain(self@, i as int),
            decreases fuel,
        {
            match self.parent_of(cur) {
                Some(p) => {
                    proof {
                        assert(ancestors(self@, cur as int, fuel as nat) == seq![p] + ancestors(
                            self@,
                            p as int,
                            (fuel - 1) as nat,
                        ));
                        assert(r@.push(p) + ancestors(self@, p as int, (fuel - 1) as nat) =~= r@
                            + ancestors(self@, cur as int, fuel as nat));
                    }
                    r.push(p);
                    cur = p;
                    fuel = fuel - 1;
                },
                None => {
                    proof {
                        assert(r@ + ancestors(self@, cur as int, fuel as nat) =~= r@);
                    }
                    return r;
                },
            }
        }
        proof {
            assert(r@ + ancestors(self@, cur as int, 0) =~= r@);
        }
        r
    }
}

/// `s2` is `s1` with one more owner on each record of `ids`.
pub open spec fn owners_added<T>(s1: Slots<T>, s2: Slots<T>, ids: Seq<usize>) -> bool {
    &&& s2.len() == s1.len()
    &&& forall|x: int| #![trigger s2[x]] 0 <= x < s1.len() ==> (s1[x] is Some <==> s2[x] is Some)
    &&& forall|x: int|
        #![trigger s2[x]]
        is_live(s1, x) ==> node(s2, x) == if ids.contains(x as usize) {
            owner_added(node(s1, x))
        } else {
            node(s1, x)
        }
}

/// The records that the inherited lookup from `i` may read: `i`, then its live ancestors.
pub open spec fn lookup_ids<T>(s: Slots<T>, i: int) -> Seq<usize> {
    seq![i as usize] + parent_chain(s, i)
}

impl<T> Forest<T> {
    /// The live children of the live record `i`, in insertion order.
    pub(crate) fn live_children_of(&self, i: usize) -> (r: Vec<usize>)
        requires
            is_live(self@, i as int),
        ensures
            r@ == live_children(self@, i as int),
    {
        let cs = self.children_ref(i);
        let mut r: Vec<usize> = Vec::new();
        let mut k: usize = 0;
        while k < cs.len()
            invariant
                k <= cs@.len(),
                r@ == live_only(self@, cs@.take(k as int)),
            decreases cs@.len() - k,
        {
            proof {
                assert(cs@.take(k as int + 1).drop_last() =~= cs@.take(k as int));
            }
            let c = cs[k];
            if self.is_live(c) {
                r.push(c);
            }
            k = k + 1;
        }
        proof {
            assert(cs@.take(k as int) =~= cs@);
        }
        r
    }

    /// Appends the live descendants of the live record `i`, in pre-order, down to `fuel` levels.
    pub(crate) fn collect_subtree(&self, i: usize, fuel: usize, out: &mut Vec<usize>)
        requires
            self.wf(),
            is_live(self@, i as int),
        ensures
            final(out)@ == old(out)@ + descendants(self@, i as int, fuel as nat),
        decreases fuel,
    {
        if fuel == 0 {
            proof {
                assert(old(out)@ + descendants(self@, i as int, 0) =~= old(out)@);
            }
            return;
        }
        let cs = self.children_ref(i);
        let ghost start = out@;
        let mut k: usize = 0;
        while k < cs.len()
            invariant
                self.wf(),
                is_live(self@, i as int),
                cs@ == node(self@, i as int).children,
                fuel > 0,
                k <= cs@.len(),
                out@ == start + descendants_of_list(self@, cs@.take(k as int), (fuel - 1) as nat),
            decreases cs@.len() - k,
        {
            let ghost before = out@;
            proof {
                assert(cs@.take(k as int + 1).drop_last() =~= cs@.take(k as int));
                assert(cs@.take(k as int + 1).last() == cs@[k as int]);
            }
            let c = cs[k];
            if self.is_live(c) {
                out.push(c);
                self.collect_subtree(c, fuel - 1, out);
                proof {
                    assert(out@ =~= before + seq![c] + descendants(self@, c as int, (fuel - 1) as nat));
                }
            }
            proof {
                assert(out@ =~= start + descendants_of_list(
                    self@,
                    cs@.take(k as int + 1),
                    (fuel - 1) as nat,
                ));
            }
            k = k + 1;
        }
        proof {
            assert(cs@.take(k as int) =~= cs@);
            assert(out@ =~= old(out)@ + descendants(self@, i as int, fuel as nat));
        }
    }
}

impl<T> TreeBox<T> {
    /// Calls `f` on this record's value under a shared guard and returns what it gives.
    /// Fails while an exclusive guard is open on this record.
    pub fn get<U, F: FnOnce(&T) -> U>(&self, tree: &Forest<T>, f: F) -> (r: Result<U, BorrowError>)
        requires
            tree.wf(),
            is_live(tree@, self@ as int),
            f.requires((&node(tree@, self@ as int).value,)),
        ensures
            r is Err <==> node(tree@, self@ as int).writer,
            r is Err ==> r->Err_0 == BorrowError::Shared,
            r is Ok ==> f.ensures((&node(tree@, self@ as int).value,), r->Ok_0),
    {
        let i = self.id();
        if tree.is_writing(i) {
            return Err(BorrowError::Shared);
        }
        Ok(f(tree.value_ref(i)))
    }

    /// Replaces this record's value `v` by `f(v)`.
    /// Fails, changing nothing, while any guard is open on this record.
    pub fn mutate<F: Fn(T) -> T>(&self, tree: &mut Forest<T>, f: F) -> (r: Result<(), BorrowError>)
        requires
            old(tree).wf(),
            is_live(old(tree)@, self@ as int),
            forall|t: T| f.requires((t,)),
        ensures
            final(tree).wf(),
            r is Err <==> !unborrowed(node(old(tree)@, self@ as int)),
            r is Err ==> r->Err_0 == BorrowError::Exclusive && final(tree)@ == old(tree)@,
            r is Ok ==> values_mapped(old(tree)@, final(tree)@, seq![self@], f),
    {
        let i = self.id();
        if !tree.is_unborrowed(i) {
            return Err(BorrowError::Exclusive);
        }
        let mut ids: Vec<usize> = Vec::new();
        ids.push(i);
        proof {
            assert(ids@ =~= seq![i]);
        }
        tree.apply_all(&ids, f);
        Ok(())
    }

    /// Replaces the live parent's value `v` by `f(v)`; does nothing without a live parent.
    /// Fails, changing nothing, while an exclusive guard is open on this record, or
    /// when the parent is this record itself or has a guard open.
    pub fn mutate_parent<F: Fn(T) -> T>(&self, tree: &mut Forest<T>, f: F) -> (r: Result<
        (),
        BorrowError,
    >)
        requires
            old(tree).wf(),
            is_live(old(tree)@, self@ as int),
            forall|t: T| f.requires((t,)),
        ensures
            final(tree).wf(),
            node(old(tree)@, self@ as int).writer ==> r == Err::<(), BorrowError>(
                BorrowError::Shared,
            ) && final(tree)@ == old(tree)@,
            !node(old(tree)@, self@ as int).writer && !walk_ok(
                old(tree)@,
                self@ as int,
                parent_ids(old(tree)@, self@ as int),
            ) ==> r == Err::<(), BorrowError>(BorrowError::Exclusive) && final(tree)@ == old(tree)@,
            !node(old(tree)@, self@ as int).writer && walk_ok(
                old(tree)@,
                self@ as int,
                parent_ids(old(tree)@, self@ as int),
            ) ==> r is Ok && values_mapped(
                old(tree)@,
                final(tree)@,
                parent_ids(old(tree)@, self@ as int),
                f,
            ),
    {
        let i = self.id();
        if tree.is_writing(i) {
            return Err(BorrowError::Shared);
        }
        let mut ids: Vec<usize> = Vec::new();
        match tree.parent_of(i) {
            Some(p) => ids.push(p),
            None => {},
        }
        proof {
            assert(ids@ =~= parent_ids(tree@, i as int));
        }
        if !tree.check_walk(i, &ids) {
            return Err(BorrowError::Exclusive);
        }
        tree.apply_all(&ids, f);
        Ok(())
    }

    /// Replaces the value `v` of each live ancestor by `f(v)`, nearest first, up to
    /// the first ancestor without a live parent. Fails, changing nothing, while a
    /// guard is open on this record or on an ancestor, or when the ancestors loop back.
    pub fn mutate_parent_rec<F: Fn(T) -> T>(&self, tree: &mut Forest<T>, f: F) -> (r: Result<
        (),
        BorrowError,
    >)
        requires
            old(tree).wf(),
            is_live(old(tree)@, self@ as int),
            forall|t: T| f.requires((t,)),
        ensures
            final(tree).wf(),
            r is Err <==> !unborrowed(node(old(tree)@, self@ as int)) || !walk_ok(
                old(tree)@,
                self@ as int,
                parent_chain(old(tree)@, self@ as int),
            ),
            r is Err ==> r->Err_0 == BorrowError::Exclusive && final(tree)@ == old(tree)@,
            r is Ok ==> values_mapped(
                old(tree)@,
                final(tree)@,
                parent_chain(old(tree)@, self@ as int),
                f,
            ),
    {
        let i = self.id();
        if !tree.is_unborrowed(i) {
            return Err(BorrowError::Exclusive);
        }
        let ids = tree.chain_of(i);
        if !tree.check_walk(i, &ids) {
            return Err(BorrowError::Exclusive);
        }
        tree.apply_all(&ids, f);
        Ok(())
    }
    /// Replaces the value `v` of each live child by `f(v)`, in insertion order.
    /// Fails, changing nothing, while an exclusive guard is open on this record
    /// (`Shared`), or when a child is this record itself or has a guard open (`Exclusive`).
    pub fn mutate_children<F: Fn(T) -> T>(&self, tree: &mut Forest<T>, f: F) -> (r: Result<
        (),
        BorrowError,
    >)
        requires
            old(tree).wf(),
            is_live(old(tree)@, self@ as int),
            forall|t: T| f.requires((t,)),
        ensures
            final(tree).wf(),
            node(old(tree)@, self@ as int).writer ==> r == Err::<(), BorrowError>(
                BorrowError::Shared,
            ) && final(tree)@ == old(tree)@,
            !node(old(tree)@, self@ as int).writer && !walk_ok(
                old(tree)@,
                self@ as int,
                live_children(old(tree)@, self@ as int),
            ) ==> r == Err::<(), BorrowError>(BorrowError::Exclusive) && final(tree)@ == old(tree)@,
            !node(old(tree)@, self@ as int).writer && walk_ok(
                old(tree)@,
                self@ as int,
                live_children(old(tree)@, self@ as int),
            ) ==> r is Ok && values_mapped(
                old(tree)@,
                final(tree)@,
                live_children(old(tree)@, self@ as int),
                f,
            ),
    {
        let i = self.id();
        if tree.is_writing(i) {
            return Err(BorrowError::Shared);
        }
        let ids = tree.live_children_of(i);
        if !tree.check_walk(i, &ids) {
            return Err(BorrowError::Exclusive);
        }
        tree.apply_all(&ids, f);
        Ok(())
    }

    /// Replaces the value `v` of each live descendant by `f(v)`, in pre-order: each
    /// child, then its own subtree, before the next sibling. Fails, changing nothing,
    /// while a guard is open on this record or on a descendant, or when the walk
    /// comes back to a record it already holds.
    pub fn mutate_children_rec<F: Fn(T) -> T>(&self, tree: &mut Forest<T>, f: F) -> (r: Result<
        (),
        BorrowError,
    >)
        requires
            old(tree).wf(),
            is_live(old(tree)@, self@ as int),
            forall|t: T| f.requires((t,)),
        ensures
            final(tree).wf(),
            r is Err <==> !unborrowed(node(old(tree)@, self@ as int)) || !walk_ok(
                old(tree)@,
                self@ as int,
                subtree(old(tree)@, self@ as int),
            ),
            r is Err ==> r->Err_0 == BorrowError::Exclusive && final(tree)@ == old(tree)@,
            r is Ok ==> values_mapped(old(tree)@, final(tree)@, subtree(old(tree)@, self@ as int), f),
    {
        let i = self.id();
        if !tree.is_unborrowed(i) {
            return Err(BorrowError::Exclusive);
        }
        let mut ids: Vec<usize> = Vec::new();
        tree.collect_subtree(i, tree.len(), &mut ids);
        proof {
            assert(ids@ =~= subtree(tree@, i as int));
        }
        if !tree.check_walk(i, &ids) {
            return Err(BorrowError::Exclusive);
        }
        tree.apply_all(&ids, f);
        Ok(())
    }

    /// New owning handles to the live children, in insertion order; each adds an
    /// owner to its record. Fails, changing nothing, while an exclusive guard is open
    /// on this record.
    pub fn children(&self, tree: &mut Forest<T>) -> (r: Result<Vec<TreeBox<T>>, BorrowError>)
        requires
            old(tree).wf(),
            is_live(old(tree)@, self@ as int),
        ensures
            final(tree).wf(),
            r is Err <==> node(old(tree)@, self@ as int).writer,
            r is Err ==> r->Err_0 == BorrowError::Shared && final(tree)@ == old(tree)@,
            r is Ok ==> {
                let ids = live_children(old(tree)@, self@ as int);
                &&& r->Ok_0@.len() == ids.len()
                &&& forall|k: int| 0 <= k < ids.len() ==> (#[trigger] r->Ok_0@[k])@ == ids[k]
                &&& owners_added(old(tree)@, final(tree)@, ids)
            },
    {
        let i = self.id();
        if tree.is_writing(i) {
            return Err(BorrowError::Shared);
        }
        let ids = tree.live_children_of(i);
        proof {
            lemma_live_children_unique(tree@, i as int);
            crate::lemmas::lemma_live_only_members(tree@, node(tree@, i as int).children);
        }
        let mut hs: Vec<TreeBox<T>> = Vec::new();
        let mut k: usize = 0;
        while k < ids.len()
            invariant
                k <= ids@.len(),
                ids@ == live_children(old(tree)@, i as int),
                ids@.no_duplicates(),
                forall|j: int| #![trigger ids@[j]] 0 <= j < ids@.len() ==> is_live(old(tree)@, ids@[j] as int),
                old(tree).wf(),
                hs@.len() == k,
                forall|j: int| 0 <= j < k ==> (#[trigger] hs@[j])@ == ids@[j],
                owners_added(old(tree)@, tree@, ids@.take(k as int)),
            decreases ids@.len() - k,
        {
            let c = ids[k];
            let ghost s0 = tree@;
            proof {
                assert(s0[c as int] is Some);
            }
            tree.add_owner(c);
            proof {
                let s1 = old(tree)@;
                let s2 = tree@;
                let done = ids@.take(k as int);
                let next = ids@.take(k as int + 1);
                assert(next =~= done.push(c));
                assert(!done.contains(c)) by {
                    if done.contains(c) {
                        let j = choose|j: int| 0 <= j < done.len() && done[j] == c;
                        assert(ids@[j] == ids@[k as int]);
                    }
                }
                assert forall|x: int| #![trigger s2[x]] is_live(s1, x) implies node(s2, x) == if next.contains(
                    x as usize,
                ) {
                    owner_added(node(s1, x))
                } else {
                    node(s1, x)
                } by {
                    assert(s0[x] is Some);
                    if x == c as int {
                        assert(next[k as int] == c);
                    } else {
                        assert(next.contains(x as usize) == done.contains(x as usize));
                    }
                }
            }
            hs.push(TreeBox::owning(c));
            k = k + 1;
        }
        proof {
            assert(ids@.take(k as int) =~= ids@);
            let s1 = old(tree)@;
            let s2 = tree@;
            lemma_links_kept(s1, s2);
            assert forall|x: int| #![trigger s2[x]] is_live(s2, x) implies node(s2, x).owners > 0
                || node(s2, x).readers > 0 || node(s2, x).writer by {
                assert(s1[x] is Some);
            }
        }
        Ok(hs)
    }
    /// Inherited lookup. `try_get` is asked of this record's value; if it answers, that
    /// is the result. Otherwise the lookup runs on the live parent, and `fallback`
    /// combines this record's value with what came from there (`None` without a live
    /// parent). At most one link per slot is followed. Each record is read under a
    /// shared guard, taken just before `try_get` is asked of it: the lookup fails as
    /// soon as it reaches a record with an exclusive guard open, and ancestors it
    /// never reaches are not looked at.
    pub fn get_parent_rec<U, F: Fn(&T) -> Option<U>, G: Fn(&T, Option<U>) -> U>(
        &self,
        tree: &Forest<T>,
        try_get: F,
        fallback: G,
    ) -> (r: Result<U, BorrowError>)
        requires
            tree.wf(),
            is_live(tree@, self@ as int),
            forall|t: &T| try_get.requires((t,)),
            forall|t: &T, o: Option<U>| fallback.requires((t, o)),
        ensures
            r is Err ==> r->Err_0 == BorrowError::Shared && exists|k: int|
                0 <= k < lookup_ids(tree@, self@ as int).len() && #[trigger] node(
                    tree@,
                    lookup_ids(tree@, self@ as int)[k] as int,
                ).writer && forall|j: int|
                    0 <= j < k ==> try_get.ensures(
                        (&values_of(tree@, lookup_ids(tree@, self@ as int))[j],),
                        None::<U>,
                    ),
            (forall|k: int|
                0 <= k < lookup_ids(tree@, self@ as int).len() ==> !#[trigger] node(
                    tree@,
                    lookup_ids(tree@, self@ as int)[k] as int,
                ).writer) ==> r is Ok,
            !node(tree@, self@ as int).writer && (forall|o: Option<U>|
                try_get.ensures((&node(tree@, self@ as int).value,), o) ==> o is Some) ==> r is Ok,
            r is Ok ==> resolves(
                try_get,
                fallback,
                values_of(tree@, lookup_ids(tree@, self@ as int)),
                r->Ok_0,
            ),
    {
        let i = self.id();
        let chain = tree.chain_of(i);
        let mut ids: Vec<usize> = Vec::new();
        ids.push(i);
        let mut k: usize = 0;
        while k < chain.len()
            invariant
                k <= chain@.len(),
                ids@ == seq![i] + chain@.take(k as int),
            decreases chain@.len() - k,
        {
            ids.push(chain[k]);
            proof {
                assert(seq![i] + chain@.take(k as int + 1) =~= (seq![i] + chain@.take(k as int)).push(
                    chain@[k as int],
                ));
            }
            k = k + 1;
        }
        let ghost s = tree@;
        let ghost vals = values_of(s, ids@);
        proof {
            assert(chain@.take(k as int) =~= chain@);
            lemma_ancestors_live(s, i as int, s.len());
            assert forall|j: int| 0 <= j < ids@.len() implies is_live(s, #[trigger] ids@[j] as int) by {
                if j > 0 {
                    assert(ids@[j] == chain@[j - 1]);
                }
            }
        }
        let n = ids.len();
        // Ask `try_get` from the record upward until one answers.
        let mut k: usize = 0;
        let mut acc: Option<U> = None;
        while k < n
            invariant_except_break
                acc is None,
            invariant
                n == ids@.len(),
                k <= n,
                n > 0,
                vals == values_of(s, ids@),
                ids@ == lookup_ids(s, i as int),
                tree@ == s,
                i == self@,
                forall|j: int| 0 <= j < ids@.len() ==> is_live(s, #[trigger] ids@[j] as int),
                forall|t: &T| try_get.requires((t,)),
                forall|j: int| 0 <= j < k ==> try_get.ensures((&vals[j],), None::<U>),
            ensures
                acc is None ==> k == n,
                acc is Some ==> k < n && try_get.ensures((&vals[k as int],), acc),
            decreases n - k,
        {
            if tree.is_writing(ids[k]) {
                proof {
                    assert(ids@[k as int] == lookup_ids(tree@, self@ as int)[k as int]);
                    assert(node(tree@, lookup_ids(tree@, self@ as int)[k as int] as int).writer);
                    assert(ids@[0] == i);
                    assert(vals[0] == node(s, i as int).value);
                    if k > 0 {
                        assert(try_get.ensures((&vals[0],), None::<U>));
                    }
                }
                return Err(BorrowError::Shared);
            }
            let o = try_get(tree.value_ref(ids[k]));
            match o {
                Some(u) => {
                    acc = Some(u);
                    break;
                },
                None => {
                    k = k + 1;
                },
            }
        }
        // Combine downward, from where the answer came to the record itself.
        let mut m: usize = k;
        let ghost mut outs: Seq<U> = if acc is Some {
            seq![acc->Some_0]
        } else {
            seq![]
        };
        while m > 0
            invariant
                n == ids@.len(),
                m <= k <= n,
                n > 0,
                vals == values_of(s, ids@),
                vals.len() == n,
                tree@ == s,
                forall|j: int| 0 <= j < ids@.len() ==> is_live(s, #[trigger] ids@[j] as int),
                forall|t: &T, o: Option<U>| fallback.requires((t, o)),
                forall|j: int| 0 <= j < k ==> try_get.ensures((&vals[j],), None::<U>),
                acc is None ==> m == n && outs.len() == 0,
                acc is Some ==> m < n && outs.len() > 0 && outs[0] == acc->Some_0 && lookup_trace(
                    try_get,
                    fallback,
                    vals.subrange(m as int, n as int),
                    outs,
                ),
            decreases m,
        {
            m = m - 1;
            let ghost prev = acc;
            let v = tree.value_ref(ids[m]);
            let u = fallback(v, acc);
            proof {
                let sub = vals.subrange(m as int, n as int);
                let next = seq![u] + outs;
                assert(vals[m as int] == node(s, ids@[m as int] as int).value);
                assert(sub[0] == vals[m as int]);
                assert(try_get.ensures((&sub[0],), None::<U>));
                assert(next[0] == u);
                if prev is Some {
                    assert(sub.drop_first() =~= vals.subrange(m as int + 1, n as int));
                    assert(next.drop_first() =~= outs);
                    assert(next[1] == outs[0]);
                } else {
                    assert(sub.len() == 1);
                }
                assert(lookup_trace(try_get, fallback, sub, next));
                outs = next;
            }
            acc = Some(u);
        }
        proof {
            assert(vals.subrange(0, n as int) =~= vals);
            if acc is Some {
                assert(lookup_trace(try_get, fallback, vals, outs));
            }
        }
        match acc {
            Some(u) => Ok(u),
            None => {
                proof {
                    assert(false);
                }
                Err(BorrowError::Shared)
            },
        }
    }
}

} // verus!
