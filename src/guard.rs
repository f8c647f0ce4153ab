use vstd::prelude::*;

use crate::forest::{BorrowError, Forest, TreeBox};
use crate::lemmas::lemma_links_kept;
use crate::node::{is_live, node, unborrowed, well_formed, Node, Slots};

verus! {

/// An open shared guard on one record; ended by [`Forest::end_read`].
pub struct ReadGuard {
    index: usize,
}

/// An open exclusive guard on one record; ended by [`Forest::end_write`].
pub struct WriteGuard {
    index: usize,
}

impl View for ReadGuard {
    type V = usize;

    closed spec fn view(&self) -> usize {
        self.index
    }
}

impl View for WriteGuard {
    type V = usize;

    closed spec fn view(&self) -> usize {
        self.index
    }
}

/// `s2` is `s1` with the record `i` replaced by `n2`, or vacated when nothing holds `n2` any more.
pub open spec fn guard_closed<T>(s1: Slots<T>, s2: Slots<T>, i: int, n2: Node<T>) -> bool {
    if n2.owners == 0 && unborrowed(n2) {
        s2 == s1.update(i, None)
    } else {
        s2 == s1.update(i, Some(n2))
    }
}

/// Changing only the guard counts, the owner count or the value of one record keeps
/// the forest well formed.
proof fn lemma_one_record_kept<T>(s1: Slots<T>, s2: Slots<T>, i: int)
    requires
        well_formed(s1),
        is_live(s1, i),
        s2.len() == s1.len(),
        forall|j: int| #![trigger s2[j]] 0 <= j < s1.len() && j != i ==> s2[j] == s1[j],
        s2[i] is Some ==> node(s2, i).parent == node(s1, i).parent && node(s2, i).children == node(
            s1,
            i,
        ).children && (node(s2, i).owners > 0 || node(s2, i).readers > 0 || node(s2, i).writer),
    ensures
        well_formed(s2),
{
    assert forall|j: int|
        #![trigger s2[j]]
        is_live(s2, j) ==> is_live(s1, j) && node(s2, j).parent == node(s1, j).parent && node(
            s2,
            j,
        ).children == node(s1, j).children by {
        if j != i && 0 <= j < s1.len() {
            assert(s2[j] == s1[j]);
        }
    }
    lemma_links_kept(s1, s2);
    assert forall|j: int| #![trigger s2[j]] is_live(s2, j) implies node(s2, j).owners > 0
        || node(s2, j).readers > 0 || node(s2, j).writer by {
        if j != i {
            assert(s1[j] is Some);
        }
    }
}

impl<T> TreeBox<T> {
    /// Opens a shared guard on this record's value. Fails, changing nothing, while an
    /// exclusive guard is open on it, or when `usize::MAX` shared guards are open.
    pub fn value(&self, tree: &mut Forest<T>) -> (r: Result<ReadGuard, BorrowError>)
        requires
            old(tree).wf(),
            is_live(old(tree)@, self@ as int),
        ensures
            final(tree).wf(),
            r is Err <==> node(old(tree)@, self@ as int).writer || node(old(tree)@, self@ as int).readers
                == usize::MAX,
            r is Err ==> r->Err_0 == BorrowError::Shared && final(tree)@ == old(tree)@,
            r is Ok ==> r->Ok_0@ == self@ && final(tree)@ == old(tree)@.update(
                self@ as int,
                Some(
                    Node {
                        readers: node(old(tree)@, self@ as int).readers + 1,
                        ..node(old(tree)@, self@ as int)
                    },
                ),
            ),
    {
        let i = self.id();
        let mut rec = tree.take_record(i);
        if rec.writer || rec.readers == usize::MAX {
            tree.put_record(i, rec);
            proof {
                assert(tree@ =~= old(tree)@);
            }
            return Err(BorrowError::Shared);
        }
        rec.readers = rec.readers + 1;
        tree.put_record(i, rec);
        proof {
            lemma_one_record_kept(old(tree)@, tree@, i as int);
        }
        Ok(ReadGuard { index: i })
    }

    /// Opens an exclusive guard on this record's value. Fails, changing nothing, while
    /// any guard is open on it.
    pub fn value_mut(&self, tree: &mut Forest<T>) -> (r: Result<WriteGuard, BorrowError>)
        requires
            old(tree).wf(),
            is_live(old(tree)@, self@ as int),
        ensures
            final(tree).wf(),
            r is Err <==> !unborrowed(node(old(tree)@, self@ as int)),
            r is Err ==> r->Err_0 == BorrowError::Exclusive && final(tree)@ == old(tree)@,
            r is Ok ==> r->Ok_0@ == self@ && final(tree)@ == old(tree)@.update(
                self@ as int,
                Some(Node { writer: true, ..node(old(tree)@, self@ as int) }),
            ),
    {
        let i = self.id();
        if !tree.is_unborrowed(i) {
            return Err(BorrowError::Exclusive);
        }
        let mut rec = tree.take_record(i);
        rec.writer = true;
        tree.put_record(i, rec);
        proof {
            lemma_one_record_kept(old(tree)@, tree@, i as int);
        }
        Ok(WriteGuard { index: i })
    }
}

impl<T> Forest<T> {
    /// The value under an open shared guard.
    pub fn read(&self, g: &ReadGuard) -> (r: &T)
        requires
            is_live(self@, g@ as int),
            node(self@, g@ as int).readers > 0,
        ensures
            *r == node(self@, g@ as int).value,
    {
        self.value_ref(g.index)
    }

    /// Ends a shared guard. The record expires if nothing holds it any more.
    pub fn end_read(&mut self, g: ReadGuard)
        requires
            old(self).wf(),
            is_live(old(self)@, g@ as int),
            node(old(self)@, g@ as int).readers > 0,
        ensures
            final(self).wf(),
            guard_closed(
                old(self)@,
                final(self)@,
                g@ as int,
                Node {
                    readers: (node(old(self)@, g@ as int).readers - 1) as nat,
                    ..node(old(self)@, g@ as int)
                },
            ),
    {
        let i = g.index;
        let mut rec = self.take_record(i);
        rec.readers = rec.readers - 1;
        proof {
            let n = node(old(self)@, i as int);
            assert(rec.node() == Node { readers: (n.readers - 1) as nat, ..n });
        }
        let ghost n2 = rec.node();
        if rec.owners > 0 || rec.readers > 0 || rec.writer {
            self.put_record(i, rec);
            proof {
                assert(self@ == old(self)@.update(i as int, Some(n2)));
            }
        } else {
            proof {
                assert(self@ == old(self)@.update(i as int, None));
            }
        }
        proof {
            lemma_one_record_kept(old(self)@, self@, i as int);
        }
    }

    /// Replaces the value under an open exclusive guard, and returns the former value.
    pub fn replace(&mut self, g: &WriteGuard, value: T) -> (r: T)
        requires
            old(self).wf(),
            is_live(old(self)@, g@ as int),
            node(old(self)@, g@ as int).writer,
        ensures
            final(self).wf(),
            r == node(old(self)@, g@ as int).value,
            final(self)@ == old(self)@.update(
                g@ as int,
                Some(Node { value, ..node(old(self)@, g@ as int) }),
            ),
    {
        let i = g.index;
        let rec = self.take_record(i);
        let crate::forest::Record { value: former, parent, children, owners, readers, writer } = rec;
        let rec2 = crate::forest::Record { value, parent, children, owners, readers, writer };
        self.put_record(i, rec2);
        proof {
            assert(rec2.node() == Node { value, ..node(old(self)@, i as int) });
            lemma_one_record_kept(old(self)@, self@, i as int);
        }
        former
    }

    /// Ends an exclusive guard. The record expires if nothing holds it any more.
    pub fn end_write(&mut self, g: WriteGuard)
        requires
            old(self).wf(),
            is_live(old(self)@, g@ as int),
            node(old(self)@, g@ as int).writer,
        ensures
            final(self).wf(),
            guard_closed(
                old(self)@,
                final(self)@,
                g@ as int,
                Node { writer: false, ..node(old(self)@, g@ as int) },
            ),
    {
        let i = g.index;
        let mut rec = self.take_record(i);
        rec.writer = false;
        proof {
            let n = node(old(self)@, i as int);
            assert(rec.node() == Node { writer: false, ..n });
        }
        let ghost n2 = rec.node();
        if rec.owners > 0 || rec.readers > 0 {
            self.put_record(i, rec);
            proof {
                assert(self@ == old(self)@.update(i as int, Some(n2)));
            }
        } else {
            proof {
                assert(self@ == old(self)@.update(i as int, None));
            }
        }
        proof {
            lemma_one_record_kept(old(self)@, self@, i as int);
        }
    }
}

} // verus!
