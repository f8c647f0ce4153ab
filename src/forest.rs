use vstd::prelude::*;

use crate::node::{
    held, is_live, live_children, live_parent, node, occ, remove_all, unborrowed, well_formed, Node,
    Slots,
};
use crate::lemmas::{lemma_links_kept, lemma_occ_absent, lemma_occ_push, lemma_reparented_wf};

verus! {

/// The two ways an access can collide with a guard that is already open.
#[derive(Debug, PartialEq, Eq, Structural)]
pub enum BorrowError {
    /// A shared access met an open exclusive guard.
    Shared,
    /// An exclusive access, or a change of links, met an open guard of any kind.
    Exclusive,
}

pub(crate) struct Record<T> {
    pub(crate) value: T,
    pub(crate) parent: Option<usize>,
    pub(crate) children: Vec<usize>,
    pub(crate) owners: usize,
    pub(crate) readers: usize,
    pub(crate) writer: bool,
}

impl<T> Record<T> {
    pub(crate) open spec fn node(&self) -> Node<T> {
        Node {
            value: self.value,
            parent: self.parent,
            children: self.children@,
            owners: self.owners as nat,
            readers: self.readers as nat,
            writer: self.writer,
        }
    }
}

pub(crate) open spec fn slot_node<T>(o: Option<Record<T>>) -> Option<Node<T>> {
    match o {
        Some(r) => Some(r.node()),
        None => None,
    }
}

/// The arena that holds the records of one or more trees.
pub struct Forest<T> {
    pub(crate) slots: Vec<Option<Record<T>>>,
}

impl<T> View for Forest<T> {
    type V = Slots<T>;

    closed spec fn view(&self) -> Slots<T> {
        self.slots@.map_values(|o: Option<Record<T>>| slot_node(o))
    }
}

/// An owning handle to one record of a forest.
///
/// A handle does not give itself back when it goes out of scope: hand it to
/// [`Forest::release`], or its record stays alive as long as the forest does.
#[must_use]
pub struct TreeBox<T> {
    pub(crate) index: usize,
    pub(crate) marker: core::marker::PhantomData<T>,
}

impl<T> View for TreeBox<T> {
    type V = usize;

    closed spec fn view(&self) -> usize {
        self.index
    }
}

/// The record with one more owner, unless the count is already the largest `usize`.
pub open spec fn owner_added<T>(n: Node<T>) -> Node<T> {
    Node {
        owners: if n.owners < usize::MAX {
            n.owners + 1
        } else {
            n.owners
        },
        ..n
    }
}

/// The slot that a handle passed as a new parent points to.
pub open spec fn target<T>(parent: Option<&TreeBox<T>>) -> Option<usize> {
    match parent {
        Some(h) => Some(h@),
        None => None,
    }
}

/// `cs` without any occurrence of `x`, order kept.
fn without(cs: &Vec<usize>, x: usize) -> (r: Vec<usize>)
    ensures
        r@ == remove_all(cs@, x),
{
    let mut r: Vec<usize> = Vec::new();
    let mut k: usize = 0;
    while k < cs.len()
        invariant
            k <= cs.len(),
            r@ == remove_all(cs@.take(k as int), x),
        decreases cs.len() - k,
    {
        proof {
            assert(cs@.take(k as int + 1).drop_last() =~= cs@.take(k as int));
        }
        if cs[k] != x {
            r.push(cs[k]);
        }
        k = k + 1;
    }
    proof {
        assert(cs@.take(k as int) =~= cs@);
    }
    r
}

/// `i`'s record with one owner fewer; the slot is vacated when nothing holds it any more.
pub open spec fn released<T>(s1: Slots<T>, s2: Slots<T>, i: int) -> bool {
    let n = node(s1, i);
    if n.owners == 1 && unborrowed(n) {
        s2 == s1.update(i, None)
    } else {
        s2 == s1.update(i, Some(Node { owners: (n.owners - 1) as nat, ..n }))
    }
}

/// The forest after `i` gets a new child record with `value`, which takes the next slot.
pub open spec fn with_child<T>(s: Slots<T>, i: int, value: T) -> Slots<T> {
    let n = node(s, i);
    s.update(i, Some(Node { children: n.children.push(s.len() as usize), ..n })).push(
        Some(
            Node {
                value,
                parent: Some(i as usize),
                children: seq![],
                owners: 1,
                readers: 0,
                writer: false,
            },
        ),
    )
}

/// The forest after `i` leaves its live parent's list of children (if any).
pub open spec fn detached<T>(s: Slots<T>, i: int) -> Slots<T> {
    match live_parent(s, i) {
        Some(p) => {
            let pn = node(s, p as int);
            s.update(p as int, Some(Node { children: remove_all(pn.children, i as usize), ..pn }))
        },
        None => s,
    }
}

/// The forest after `i` is moved under `parent`, or made a root when `parent` is `None`.
pub open spec fn reparented<T>(s: Slots<T>, i: int, parent: Option<usize>) -> Slots<T> {
    let sa = detached(s, i);
    let sb = sa.update(i, Some(Node { parent, ..node(sa, i) }));
    match parent {
        Some(q) => {
            let qn = node(sb, q as int);
            sb.update(q as int, Some(Node { children: qn.children.push(i as usize), ..qn }))
        },
        None => sb,
    }
}

/// `set_parent` on `i` would meet an open guard: on `i`, on its live parent, or on the new parent.
pub open spec fn reparent_blocked<T>(s: Slots<T>, i: int, parent: Option<usize>) -> bool {
    ||| !unborrowed(node(s, i))
    ||| (live_parent(s, i) matches Some(p) && !unborrowed(node(s, p as int)))
    ||| (parent matches Some(q) && !unborrowed(node(s, q as int)))
}

impl<T> Forest<T> {
    pub open spec fn wf(&self) -> bool {
        well_formed(self@)
    }

    /// An empty forest.
    pub fn new() -> (r: Self)
        ensures
            r@ == Seq::<Option<Node<T>>>::empty(),
            r.wf(),
    {
        let r = Forest { slots: Vec::new() };
        assert(r@ =~= Seq::<Option<Node<T>>>::empty());
        r
    }

    /// Number of slots, live or expired.
    pub fn len(&self) -> (r: usize)
        ensures
            r == self@.len(),
    {
        self.slots.len()
    }

    /// Whether the record in slot `i` is alive.
    pub fn is_live(&self, i: usize) -> (r: bool)
        ensures
            r == is_live(self@, i as int),
    {
        i < self.slots.len() && self.slots[i].is_some()
    }

    pub(crate) fn take_record(&mut self, i: usize) -> (r: Record<T>)
        requires
            is_live(old(self)@, i as int),
        ensures
            final(self)@ == old(self)@.update(i as int, None),
            r.node() == node(old(self)@, i as int),
    {
        let o = self.slots[i].take();
        proof {
            assert(final(self)@ =~= old(self)@.update(i as int, None));
        }
        o.unwrap()
    }

    pub(crate) fn put_record(&mut self, i: usize, r: Record<T>)
        requires
            i < old(self)@.len(),
        ensures
            final(self)@ == old(self)@.update(i as int, Some(r.node())),
    {
        self.slots.set(i, Some(r));
        proof {
            assert(final(self)@ =~= old(self)@.update(i as int, Some(r.node())));
        }
    }

    /// Gives up one owning handle. The record expires once no handle and no guard holds it.
    pub fn release(&mut self, h: TreeBox<T>)
        requires
            old(self).wf(),
            is_live(old(self)@, h@ as int),
            node(old(self)@, h@ as int).owners > 0,
        ensures
            final(self).wf(),
            released(old(self)@, final(self)@, h@ as int),
    {
        let i = h.index;
        let mut rec = self.take_record(i);
        rec.owners = rec.owners - 1;
        if rec.owners == 0 && rec.readers == 0 && !rec.writer {
            proof {
                lemma_links_kept(old(self)@, self@);
                assert(self@ == old(self)@.update(i as int, None));
            }
        } else {
            self.put_record(i, rec);
            proof {
                lemma_links_kept(old(self)@, self@);
                assert(self@ =~= old(self)@.update(i as int, Some(rec.node())));
            }
        }
    }
    /// A reference to the value of the live record `i`.
    pub(crate) fn value_ref(&self, i: usize) -> (r: &T)
        requires
            is_live(self@, i as int),
        ensures
            *r == node(self@, i as int).value,
    {
        let rec = self.slots[i].as_ref().unwrap();
        &rec.value
    }

    /// The child links of the live record `i`, expired ones included.
    pub(crate) fn children_ref(&self, i: usize) -> (r: &Vec<usize>)
        requires
            is_live(self@, i as int),
        ensures
            r@ == node(self@, i as int).children,
    {
        let rec = self.slots[i].as_ref().unwrap();
        &rec.children
    }

    /// Adds one owner to the live record `i`; a count at the largest `usize` stays there.
    pub(crate) fn add_owner(&mut self, i: usize)
        requires
            is_live(old(self)@, i as int),
        ensures
            final(self)@ == old(self)@.update(i as int, Some(owner_added(node(old(self)@, i as int)))),
    {
        let mut rec = self.take_record(i);
        if rec.owners < usize::MAX {
            rec.owners = rec.owners + 1;
        }
        self.put_record(i, rec);
    }

    /// Whether an exclusive guard is open on the live record `i`.
    pub(crate) fn is_writing(&self, i: usize) -> (r: bool)
        requires
            is_live(self@, i as int),
        ensures
            r == node(self@, i as int).writer,
    {
        match &self.slots[i] {
            Some(rec) => rec.writer,
            None => false,
        }
    }

    /// Whether no guard at all is open on the live record `i`.
    pub(crate) fn is_unborrowed(&self, i: usize) -> (r: bool)
        requires
            is_live(self@, i as int),
        ensures
            r == unborrowed(node(self@, i as int)),
    {
        match &self.slots[i] {
            Some(rec) => rec.readers == 0 && !rec.writer,
            None => false,
        }
    }

    /// The live parent of the live record `i`, if any.
    pub(crate) fn parent_of(&self, i: usize) -> (r: Option<usize>)
        requires
            well_formed(self@),
            is_live(self@, i as int),
        ensures
            r == live_parent(self@, i as int),
    {
        let p = match &self.slots[i] {
            Some(rec) => rec.parent,
            None => None,
        };
        match p {
            Some(q) => if self.is_live(q) {
                Some(q)
            } else {
                None
            },
            None => None,
        }
    }
}

impl<T> TreeBox<T> {
    /// The slot this handle owns.
    pub fn id(&self) -> (r: usize)
        ensures
            r == self@,
    {
        self.index
    }

    /// A handle to slot `i`; the caller has counted it among the record's owners.
    pub(crate) fn owning(i: usize) -> (r: TreeBox<T>)
        ensures
            r@ == i,
    {
        TreeBox { index: i, marker: core::marker::PhantomData }
    }

    /// Makes a new root record holding `value`, and returns the handle that owns it.
    pub fn from(tree: &mut Forest<T>, value: T) -> (r: TreeBox<T>)
        requires
            old(tree).wf(),
        ensures
            final(tree).wf(),
            r@ == old(tree)@.len(),
            final(tree)@ == old(tree)@.push(
                Some(
                    Node {
                        value,
                        parent: None,
                        children: seq![],
                        owners: 1,
                        readers: 0,
                        writer: false,
                    },
                ),
            ),
    {
        let c = tree.slots.len();
        let rec = Record { value, parent: None, children: Vec::new(), owners: 1, readers: 0, writer: false };
        tree.slots.push(Some(rec));
        proof {
            assert(tree.slots.len() == tree.slots@.len());
            let s1 = old(tree)@;
            let s2 = tree@;
            assert(s2 =~= s1.push(Some(rec.node())));
            assert forall|x: int|
                #![trigger live_parent(s2, x)]
                is_live(s2, x) && live_parent(s2, x) is Some implies occ(
                    node(s2, live_parent(s2, x)->Some_0 as int).children,
                    x as usize,
                ) == 1 by {
                assert(s1[x] is Some);
                assert(live_parent(s1, x) == live_parent(s2, x));
            }
            assert forall|p: int, k: int|
                #![trigger node(s2, p).children[k]]
                is_live(s2, p) && 0 <= k < node(s2, p).children.len() && is_live(
                    s2,
                    node(s2, p).children[k] as int,
                ) implies node(s2, node(s2, p).children[k] as int).parent == Some(p as usize) by {
                assert(s1[p] is Some);
                assert(node(s1, p).children[k] == node(s2, p).children[k]);
            }
            assert forall|j: int| #![trigger s2[j]] is_live(s2, j) implies {
                &&& (node(s2, j).parent matches Some(p) ==> p < s2.len())
                &&& forall|k: int|
                    0 <= k < node(s2, j).children.len() ==> #[trigger] node(s2, j).children[k]
                        < s2.len()
            } by {
                if j < s1.len() {
                    assert(s1[j] is Some);
                    assert forall|k: int| 0 <= k < node(s2, j).children.len() implies #[trigger] node(
                        s2,
                        j,
                    ).children[k] < s2.len() by {
                        assert(node(s1, j).children[k] == node(s2, j).children[k]);
                    }
                }
            }
            assert(held(s2)) by {
                assert forall|j: int| #![trigger s2[j]] is_live(s2, j) implies node(s2, j).owners > 0
                    || node(s2, j).readers > 0 || node(s2, j).writer by {
                    if j < s1.len() {
                        assert(s1[j] is Some);
                    }
                }
            }
        }
        TreeBox { index: c, marker: core::marker::PhantomData }
    }

    /// Makes a new record holding `value` as the last child of this one.
    /// Changing the links takes this record exclusively: fails, changing nothing,
    /// while a guard of any kind is open on it.
    pub fn create_child(&self, tree: &mut Forest<T>, value: T) -> (r: Result<TreeBox<T>, BorrowError>)
        requires
            old(tree).wf(),
            is_live(old(tree)@, self@ as int),
        ensures
            final(tree).wf(),
            !unborrowed(node(old(tree)@, self@ as int)) ==> r == Err::<TreeBox<T>, BorrowError>(
                BorrowError::Exclusive,
            ) && final(tree)@ == old(tree)@,
            unborrowed(node(old(tree)@, self@ as int)) ==> r is Ok && r->Ok_0@ == old(tree)@.len()
                && final(tree)@ == with_child(old(tree)@, self@ as int, value),
    {
        let i = self.index;
        if !tree.is_unborrowed(i) {
            return Err(BorrowError::Exclusive);
        }
        let c = tree.slots.len();
        let mut rec = tree.take_record(i);
        rec.children.push(c);
        proof {
            let n = node(old(tree)@, i as int);
            assert(rec.node() == Node { children: n.children.push(c), ..n });
        }
        tree.put_record(i, rec);
        let ghost s_mid = tree@;
        let child = Record {
            value,
            parent: Some(i),
            children: Vec::new(),
            owners: 1,
            readers: 0,
            writer: false,
        };
        tree.slots.push(Some(child));
        proof {
            assert(tree.slots.len() == tree.slots@.len());
            assert(tree@ =~= s_mid.push(Some(child.node())));
            let s1 = old(tree)@;
            let s2 = tree@;
            let ii = i as int;
            assert(s2 =~= with_child(s1, ii, value));
            assert forall|k: int| 0 <= k < node(s1, ii).children.len() implies #[trigger] node(
                s1,
                ii,
            ).children[k] != c by {
                assert(s1[ii] is Some);
            }
            lemma_occ_absent(node(s1, ii).children, c);
            lemma_occ_push(node(s1, ii).children, c, c);
            assert forall|x: int|
                #![trigger live_parent(s2, x)]
                is_live(s2, x) && live_parent(s2, x) is Some implies occ(
                    node(s2, live_parent(s2, x)->Some_0 as int).children,
                    x as usize,
                ) == 1 by {
                if x != c {
                    assert(s1[x] is Some);
                    assert(live_parent(s1, x) == live_parent(s2, x));
                    lemma_occ_push(node(s1, ii).children, c, x as usize);
                }
            }
            assert forall|p: int, k: int|
                #![trigger node(s2, p).children[k]]
                is_live(s2, p) && 0 <= k < node(s2, p).children.len() && is_live(
                    s2,
                    node(s2, p).children[k] as int,
                ) implies node(s2, node(s2, p).children[k] as int).parent == Some(p as usize) by {
                if p != c {
                    assert(s1[p] is Some);
                    if p != ii || k < node(s1, ii).children.len() {
                        assert(node(s1, p).children[k] == node(s2, p).children[k]);
                        assert(node(s1, p).children[k] < s1.len());
                    }
                }
            }
            assert forall|j: int| #![trigger s2[j]] is_live(s2, j) implies {
                &&& (node(s2, j).parent matches Some(p) ==> p < s2.len())
                &&& forall|k: int|
                    0 <= k < node(s2, j).children.len() ==> #[trigger] node(s2, j).children[k]
                        < s2.len()
            } by {
                if j < s1.len() {
                    assert(s1[j] is Some);
                    assert forall|k: int| 0 <= k < node(s2, j).children.len() implies #[trigger] node(
                        s2,
                        j,
                    ).children[k] < s2.len() by {
                        if j != ii || k < node(s1, ii).children.len() {
                            assert(node(s1, j).children[k] == node(s2, j).children[k]);
                        }
                    }
                }
            }
            assert(held(s2)) by {
                assert forall|j: int| #![trigger s2[j]] is_live(s2, j) implies node(s2, j).owners > 0
                    || node(s2, j).readers > 0 || node(s2, j).writer by {
                    if j < s1.len() {
                        assert(s1[j] is Some);
                    }
                }
            }
        }
        Ok(TreeBox { index: c, marker: core::marker::PhantomData })
    }
    /// Moves this record under `parent`, or makes it a root when `parent` is `None`.
    /// It first leaves the list of children of its former parent, if that parent is
    /// alive; then, with a new parent, it is appended to that parent's children.
    /// Fails, changing nothing, while a guard is open on this record, on its live
    /// parent or on the new parent.
    pub fn set_parent(&self, tree: &mut Forest<T>, parent: Option<&TreeBox<T>>) -> (r: Result<
        (),
        BorrowError,
    >)
        requires
            old(tree).wf(),
            is_live(old(tree)@, self@ as int),
            parent matches Some(q) ==> is_live(old(tree)@, q@ as int),
        ensures
            final(tree).wf(),
            r is Err <==> reparent_blocked(old(tree)@, self@ as int, target(parent)),
            r is Err ==> r == Err::<(), BorrowError>(BorrowError::Exclusive) && final(tree)@ == old(
                tree,
            )@,
            r is Ok ==> final(tree)@ == reparented(old(tree)@, self@ as int, target(parent)),
            r is Ok ==> (parent matches Some(q) ==> occ(
                live_children(final(tree)@, q@ as int),
                self@,
            ) == 1),
            r is Ok ==> (live_parent(old(tree)@, self@ as int) matches Some(p) ==> (target(parent)
                != Some(p) ==> occ(live_children(final(tree)@, p as int), self@) == 0)),
    {
        let i = self.index;
        let q: Option<usize> = match parent {
            Some(h) => Some(h.index),
            None => None,
        };
        let old_parent = tree.parent_of(i);
        if !tree.is_unborrowed(i) {
            return Err(BorrowError::Exclusive);
        }
        match old_parent {
            Some(p) => if !tree.is_unborrowed(p) {
                return Err(BorrowError::Exclusive);
            },
            None => {},
        }
        match q {
            Some(qq) => if !tree.is_unborrowed(qq) {
                return Err(BorrowError::Exclusive);
            },
            None => {},
        }
        match old_parent {
            Some(p) => {
                let mut prec = tree.take_record(p);
                prec.children = without(&prec.children, i);
                proof {
                    let n = node(old(tree)@, p as int);
                    assert(prec.node() == Node { children: remove_all(n.children, i), ..n });
                }
                tree.put_record(p, prec);
            },
            None => {},
        }
        proof {
            assert(tree@ == detached(old(tree)@, i as int));
        }
        let ghost sa = tree@;
        let mut rec = tree.take_record(i);
        rec.parent = q;
        proof {
            assert(rec.node() == Node { parent: q, ..node(sa, i as int) });
        }
        tree.put_record(i, rec);
        let ghost sb = tree@;
        match q {
            Some(qq) => {
                let mut qrec = tree.take_record(qq);
                qrec.children.push(i);
                proof {
                    let n = node(sb, qq as int);
                    assert(qrec.node() == Node { children: n.children.push(i), ..n });
                }
                tree.put_record(qq, qrec);
            },
            None => {},
        }
        proof {
            assert(tree@ == reparented(old(tree)@, i as int, q));
            lemma_reparented_wf(old(tree)@, i as int, q);
        }
        Ok(())
    }
}

} // verus!
