use vstd::prelude::*;

use crate::chunks::{lemma_concat_len_same, lemma_concat_update, lemma_offset_next, offset, ChunkList};

verus! {

/// Where an `IterMut` stands: in a retired chunk, or in the current one.
enum ChunkListPosition {
    Rest { index: usize, inner_index: usize },
    Current { index: usize },
}

/// Mutable iteration over the values of an arena, in allocation order.
///
/// It holds the arena's storage exclusively, so no value can be allocated
/// while it is alive. Each call of `next` lends out the next value.
pub struct IterMut<'a, T> {
    chunks: &'a mut ChunkList<T>,
    position: ChunkListPosition,
}

impl<'a, T> IterMut<'a, T> {
    /// Every value of the arena, in allocation order, as it stands now.
    pub closed spec fn values(&self) -> Seq<T> {
        (*self.chunks).items()
    }

    /// Position, in allocation order, of the value `next` yields next.
    pub closed spec fn pos(&self) -> nat {
        let cl = *self.chunks;
        match self.position {
            ChunkListPosition::Rest { index, inner_index } => offset(cl.chunks(), index as int) + inner_index as nat,
            ChunkListPosition::Current { index } => offset(cl.chunks(), cl.rest@.len() as int) + index as nat,
        }
    }

    /// The arena's storage, as borrowed for the whole iteration.
    pub closed spec fn target(&self) -> &'a mut ChunkList<T> {
        self.chunks
    }

    pub closed spec fn wf(&self) -> bool {
        let cl = *self.chunks;
        &&& cl.wf()
        &&& match self.position {
            ChunkListPosition::Rest { index, inner_index } => {
                &&& index <= cl.rest@.len()
                &&& index < cl.rest@.len() ==> inner_index <= cl.rest@[index as int]@.len()
                &&& index == cl.rest@.len() ==> inner_index == 0
            },
            ChunkListPosition::Current { index } => index <= cl.current@.len(),
        }
    }

    /// Once an iterator is done with, the storage holds what it left there.
    pub proof fn lemma_resolved(it: IterMut<'a, T>)
        requires
            has_resolved(it),
        ensures
            *it.target() == *final(it.target()),
            (*final(it.target())).items() == it.values(),
            it.wf() ==> (*final(it.target())).wf(),
    {
    }

    /// Starts iterating over `chunks` at its first value.
    pub(crate) fn new(chunks: &'a mut ChunkList<T>) -> (r: IterMut<'a, T>)
        requires
            old(chunks).wf(),
        ensures
            r.wf(),
            *r.target() == *old(chunks),
            *final(r.target()) == *final(chunks),
            r.values() == old(chunks).items(),
            r.pos() == 0,
    {
        let r = IterMut { chunks, position: ChunkListPosition::Rest { index: 0, inner_index: 0 } };
        proof {
            assert((*r.chunks).chunks().subrange(0, 0) =~= Seq::<Seq<T>>::empty());
        }
        r
    }

    /// Bounds on how many values `next` has yet to yield: both exactly that
    /// number where it fits in a `usize`; otherwise `usize::MAX` and no upper
    /// bound.
    pub fn size_hint(&self) -> (r: (usize, Option<usize>))
        requires
            self.wf(),
        ensures
            r.0 <= self.values().len() - self.pos(),
            r.1 matches Some(u) ==> u == self.values().len() - self.pos(),
            self.values().len() - self.pos() <= usize::MAX ==> {
                &&& r.0 == self.values().len() - self.pos()
                &&& r.1 == Some((self.values().len() - self.pos()) as usize)
            },
    {
        let ghost cl = *self.chunks;
        let ghost chunks = cl.chunks();
        proof {
            cl.lemma_items();
        }
        let n_rest = self.chunks.rest.len();
        // The chunk to count from, and how many of its values are behind.
        let (first, skip) = match self.position {
            ChunkListPosition::Rest { index, inner_index } => (index, inner_index),
            ChunkListPosition::Current { index } => (n_rest, index),
        };
        let mut left: Option<usize> = Some(0);
        let mut k: usize = first;
        proof {
            lemma_offset_next(chunks, 0);
        }
        while k < n_rest
            invariant
                first <= k <= n_rest,
                n_rest == cl.rest@.len(),
                *self.chunks == cl,
                chunks == cl.chunks(),
                chunks.len() == n_rest + 1,
                first < n_rest ==> skip <= chunks[first as int].len(),
                first == n_rest ==> skip <= chunks[first as int].len(),
                k == first ==> left == Some(0usize),
                k > first ==> match left {
                    Some(u) => u == offset(chunks, k as int) - offset(chunks, first as int) - skip,
                    None => offset(chunks, k as int) - offset(chunks, first as int) - skip > usize::MAX,
                },
                offset(chunks, first as int) + skip <= offset(chunks, k as int) || k == first,
            decreases n_rest - k,
        {
            proof {
                lemma_offset_next(chunks, k as int);
            }
            let len = self.chunks.rest[k].len();
            let here = if k == first { len - skip } else { len };
            left = match left {
                Some(u) => u.checked_add(here),
                None => None,
            };
            k = k + 1;
        }
        proof {
            lemma_offset_next(chunks, n_rest as int);
        }
        let len = self.chunks.current.len();
        let here = if first == n_rest { len - skip } else { len };
        left = match left {
            Some(u) => u.checked_add(here),
            None => None,
        };
        match left {
            Some(u) => (u, Some(u)),
            None => (usize::MAX, None),
        }
    }

    /// Lends out the next value in allocation order, or returns `None` once
    /// every value has been yielded.
    pub fn next(&mut self) -> (r: Option<&mut T>)
        requires
            old(self).wf(),
        ensures
            final(self).wf(),
            *final(final(self).target()) == *final(old(self).target()),
            old(self).pos() < old(self).values().len() ==> r is Some,
            old(self).pos() < old(self).values().len() ==> *r->0 == old(self).values()[old(self).pos() as int],
            old(self).pos() < old(self).values().len() ==> final(self).values() == old(self).values().update(old(self).pos() as int, *final(r->0)),
            old(self).pos() < old(self).values().len() ==> final(self).pos() == old(self).pos() + 1,
            old(self).pos() >= old(self).values().len() ==> {
                &&& r is None
                &&& final(self).values() == old(self).values()
                &&& final(self).pos() == old(self).pos()
            },
    {
        let ghost pos0 = self.pos();
        let ghost values0 = self.values();
        let ghost chunks0 = (*self.chunks).chunks();
        proof {
            (*self.chunks).lemma_items();
        }
        loop
            invariant
                self.wf(),
                pos0 == old(self).pos(),
                values0 == old(self).values(),
                chunks0 == (*old(self).chunks).chunks(),
                self.pos() == pos0,
                self.values() == values0,
                (*self.chunks).chunks() == chunks0,
                self.chunks == old(self).chunks,
            decreases
                match self.position {
                    ChunkListPosition::Rest { index, .. } => 2 * ((*self.chunks).rest@.len() - index) + 2,
                    ChunkListPosition::Current { .. } => 0int,
                },
        {
            match self.position {
                ChunkListPosition::Rest { index, inner_index } => {
                    if index < self.chunks.rest.len() {
                        if inner_index < self.chunks.rest[index].len() {
                            self.position = ChunkListPosition::Rest { index, inner_index: inner_index + 1 };
                            proof {
                                lemma_slot_changed(*self.chunks, index as int, inner_index as int);
                            }
                            return Some(&mut self.chunks.rest[index][inner_index]);
                        }
                        proof {
                            lemma_offset_next(chunks0, index as int);
                        }
                        self.position = ChunkListPosition::Rest { index: index + 1, inner_index: 0 };
                    } else {
                        self.position = ChunkListPosition::Current { index: 0 };
                    }
                },
                ChunkListPosition::Current { index } => {
                    if index < self.chunks.current.len() {
                        self.position = ChunkListPosition::Current { index: index + 1 };
                        proof {
                            lemma_slot_changed(*self.chunks, self.chunks.rest@.len() as int, index as int);
                        }
                        return Some(&mut self.chunks.current[index]);
                    }
                    proof {
                        lemma_offset_next(chunks0, self.chunks.rest@.len() as int);
                    }
                    return None;
                },
            }
        }
    }

}

/// `b` is `cl` with, at most, the value in slot `j` of chunk `c` replaced.
spec fn slot_changed<T>(cl: ChunkList<T>, b: ChunkList<T>, c: int, j: int) -> bool {
    &&& b.current_cap == cl.current_cap
    &&& b.rest_caps == cl.rest_caps
    &&& b.moved == cl.moved
    &&& if c < cl.rest@.len() {
        &&& b.current == cl.current
        &&& b.rest@ == cl.rest@.update(c, b.rest@[c])
        &&& b.rest@[c]@ == cl.rest@[c]@.update(j, b.rest@[c]@[j])
    } else {
        &&& b.rest == cl.rest
        &&& b.current@ == cl.current@.update(j, b.current@[j])
    }
}

/// Whatever value ends up in slot `j` of chunk `c`, the storage stays well
/// formed, every chunk starts at the same position, and the values change at
/// exactly the matching position.
proof fn lemma_slot_changed<T>(cl: ChunkList<T>, c: int, j: int)
    requires
        cl.wf(),
        0 <= c < cl.chunks().len(),
        0 <= j < cl.chunks()[c].len(),
    ensures
        offset(cl.chunks(), c) + j < cl.items().len(),
        cl.items()[offset(cl.chunks(), c) + j] == cl.chunks()[c][j],
        forall|b: ChunkList<T>| slot_changed(cl, b, c, j) ==> #[trigger] b.wf(),
        forall|b: ChunkList<T>| slot_changed(cl, b, c, j) ==> #[trigger] b.items()
            == cl.items().update(offset(cl.chunks(), c) + j, b.chunks()[c][j]),
        forall|b: ChunkList<T>, k: int| slot_changed(cl, b, c, j) && 0 <= k <= cl.chunks().len()
            ==> #[trigger] offset(b.chunks(), k) == offset(cl.chunks(), k),
{
    cl.lemma_items();
    lemma_concat_update(cl.chunks(), c, j, cl.chunks()[c][j]);
    assert(cl.chunks()[c].update(j, cl.chunks()[c][j]) =~= cl.chunks()[c]);
    assert(cl.chunks().update(c, cl.chunks()[c].update(j, cl.chunks()[c][j])) =~= cl.chunks());
    assert forall|b: ChunkList<T>| slot_changed(cl, b, c, j) implies {
        &&& b.wf()
        &&& b.items() == cl.items().update(offset(cl.chunks(), c) + j, b.chunks()[c][j])
    } by {
        b.lemma_items();
        let y = b.chunks()[c][j];
        assert(b.chunks() =~= cl.chunks().update(c, cl.chunks()[c].update(j, y)));
        assert(cl.same_shape(&b));
        cl.lemma_same_shape(&b);
        lemma_concat_update(cl.chunks(), c, j, y);
    }
    assert forall|b: ChunkList<T>, k: int| slot_changed(cl, b, c, j) && 0 <= k <= cl.chunks().len()
        implies #[trigger] offset(b.chunks(), k) == offset(cl.chunks(), k) by {
        b.lemma_items();
        let y = b.chunks()[c][j];
        assert(b.chunks() =~= cl.chunks().update(c, cl.chunks()[c].update(j, y)));
        lemma_concat_len_same(b.chunks().subrange(0, k), cl.chunks().subrange(0, k));
    }
}

} // verus!
