use vstd::prelude::*;

use crate::chunks::{concat_chunks, grown_capacity, growth_fits, ChunkList};
use crate::iter::IterMut;
use crate::pow2::pow2;

verus! {

/// Bytes the first chunk of `Arena::new` aims to take.
pub const INITIAL_SIZE: usize = 1024;

/// Smallest capacity of a chunk; a chunk with no room could never take a value.
pub const MIN_CAPACITY: usize = 1;

/// Capacity of the first chunk of `Arena::new` for values of `elem_size` bytes.
pub open spec fn initial_capacity(elem_size: nat) -> nat {
    let per = if elem_size == 0 { 1 } else { elem_size };
    let n = INITIAL_SIZE as nat / per;
    if n >= MIN_CAPACITY { n } else { MIN_CAPACITY as nat }
}

/// Capacity of the first chunk of `Arena::with_capacity(n)`.
pub open spec fn first_capacity(n: nat) -> nat {
    if n >= MIN_CAPACITY { n } else { MIN_CAPACITY as nat }
}

/// Capacity of a new chunk requested for `request` values after a chunk of
/// capacity `cap`, when `n` values end up in it.
pub open spec fn grown_or_filled(cap: nat, request: nat, n: nat) -> nat {
    let grown = grown_capacity(cap, request);
    if n > grown { n } else { grown }
}

/// Every value placed in the chunks `before` stays in its slot, with its
/// value, in the chunks `after`: each chunk of `before` begins the chunk at
/// the same position in `after`.
pub open spec fn slots_kept<T>(before: Seq<Seq<T>>, after: Seq<Seq<T>>) -> bool {
    &&& before.len() <= after.len()
    &&& forall|k: int| 0 <= k < before.len() ==> (#[trigger] before[k]).is_prefix_of(after[k])
}

/// Appending to the last chunk, or adding a chunk, keeps every slot.
pub proof fn lemma_slots_kept_on_append<T>(c: Seq<Seq<T>>)
    requires
        c.len() > 0,
    ensures
        forall|s: Seq<T>| #[trigger] slots_kept(c, c.update(c.len() - 1, c.last() + s)),
        forall|x: T| #[trigger] slots_kept(c, c.update(c.len() - 1, c.last().push(x))),
        forall|s: Seq<T>| #[trigger] slots_kept(c, c.push(s)),
{
    assert forall|s: Seq<T>| #[trigger] slots_kept(c, c.update(c.len() - 1, c.last() + s)) by {
        let d = c.update(c.len() - 1, c.last() + s);
        assert forall|k: int| 0 <= k < c.len() implies (#[trigger] c[k]).is_prefix_of(d[k]) by {
            assert(c[k] =~= d[k].subrange(0, c[k].len() as int));
        }
    }
    assert forall|x: T| #[trigger] slots_kept(c, c.update(c.len() - 1, c.last().push(x))) by {
        let d = c.update(c.len() - 1, c.last().push(x));
        assert forall|k: int| 0 <= k < c.len() implies (#[trigger] c[k]).is_prefix_of(d[k]) by {
            assert(c[k] =~= d[k].subrange(0, c[k].len() as int));
        }
    }
    assert forall|s: Seq<T>| #[trigger] slots_kept(c, c.push(s)) by {
        let d = c.push(s);
        assert forall|k: int| 0 <= k < c.len() implies (#[trigger] c[k]).is_prefix_of(d[k]) by {
            assert(c[k] =~= d[k].subrange(0, c[k].len() as int));
        }
    }
}

/// A slot kept from `a` to `b` and from `b` to `c` is kept from `a` to `c`:
/// no sequence of allocations moves or changes a value placed earlier.
pub proof fn lemma_slots_kept_transitive<T>(a: Seq<Seq<T>>, b: Seq<Seq<T>>, c: Seq<Seq<T>>)
    requires
        slots_kept(a, b),
        slots_kept(b, c),
    ensures
        slots_kept(a, c),
{
    assert forall|k: int| 0 <= k < a.len() implies (#[trigger] a[k]).is_prefix_of(c[k]) by {
        assert(a[k].is_prefix_of(b[k]));
        assert(b[k].is_prefix_of(c[k]));
        assert(a[k] =~= c[k].subrange(0, a[k].len() as int));
    }
}

/// The values after pushing each of `items`, one at a time, onto `s`.
pub open spec fn push_each<T>(s: Seq<T>, items: Seq<T>) -> Seq<T>
    decreases items.len(),
{
    if items.len() == 0 {
        s
    } else {
        push_each(s.push(items[0]), items.drop_first())
    }
}

/// Allocating values one at a time gives the same values, in the same order,
/// as allocating them all in one bulk call.
pub proof fn lemma_bulk_matches_single<T>(s: Seq<T>, items: Seq<T>)
    ensures
        push_each(s, items) == s + items,
    decreases items.len(),
{
    if items.len() > 0 {
        lemma_bulk_matches_single(s.push(items[0]), items.drop_first());
        assert(s.push(items[0]) + items.drop_first() =~= s + items);
    }
}

/// An arena asked for no room starts exactly as one asked for room for one
/// value: its first chunk has the same capacity.
pub proof fn lemma_capacity_floor()
    ensures
        first_capacity(0) == first_capacity(1),
{
}

/// Adding `s` as the last chunk adds its values at the end.
pub proof fn lemma_concat_push<T>(chunks: Seq<Seq<T>>, s: Seq<T>)
    ensures
        concat_chunks(chunks.push(s)) == concat_chunks(chunks) + s,
{
    assert(chunks.push(s).drop_last() =~= chunks);
}

/// Replacing the last chunk replaces the values at the end.
pub proof fn lemma_concat_update_last<T>(chunks: Seq<Seq<T>>, s: Seq<T>)
    requires
        chunks.len() > 0,
    ensures
        concat_chunks(chunks.update(chunks.len() - 1, s)) == concat_chunks(chunks.drop_last()) + s,
{
    assert(chunks.update(chunks.len() - 1, s).drop_last() =~= chunks.drop_last());
}

/// An arena of values of type `T`.
pub struct Arena<T> {
    chunks: ChunkList<T>,
}

impl<T> View for Arena<T> {
    type V = Seq<T>;

    /// Every value in the arena, in the order it was allocated.
    open spec fn view(&self) -> Seq<T> {
        concat_chunks(self.chunks())
    }
}

impl<T> Arena<T> {
    /// The arena's chunks, oldest first; the last one receives new values.
    pub closed spec fn chunks(&self) -> Seq<Seq<T>> {
        self.chunks.chunks()
    }

    /// The capacity of each chunk, in the order of `chunks`.
    pub closed spec fn capacities(&self) -> Seq<nat> {
        self.chunks.caps()
    }

    /// The arena's internal invariant: made by the constructors and kept by
    /// every operation.
    pub closed spec fn wf(&self) -> bool {
        self.chunks.wf()
    }

    /// Number of values in the chunk that receives new values.
    pub open spec fn current_len(&self) -> nat {
        self.chunks().last().len()
    }

    /// Capacity of the chunk that receives new values.
    pub open spec fn current_capacity(&self) -> nat {
        self.capacities().last()
    }

    /// Room left in the chunk that receives new values.
    pub open spec fn room(&self) -> nat {
        (self.current_capacity() - self.current_len()) as nat
    }

    /// Whether the arena can grow by a chunk for `additional` values without
    /// its capacity arithmetic overflowing.
    pub open spec fn can_grow(&self, additional: nat) -> bool {
        growth_fits(self.current_capacity(), additional)
    }

    /// How many values have been moved from one chunk to another over the
    /// arena's life.
    pub closed spec fn moved(&self) -> nat {
        self.chunks.moved@
    }

    /// How many values placing `n` values announced with the lower bound
    /// `hint` moves: those of the call that went into the old chunk before it
    /// filled up.
    pub open spec fn extend_moves(&self, n: nat, hint: nat) -> nat {
        if hint <= self.room() && n > self.room() { self.room() } else { 0 }
    }

    /// Whether placing `n` values announced with the lower bound `hint` starts
    /// a new chunk.
    pub open spec fn extend_grows(&self, n: nat, hint: nat) -> bool {
        hint > self.room() || n > self.room()
    }

    /// The room requested from the new chunk when placing `n` values announced
    /// with the lower bound `hint` starts one.
    pub open spec fn extend_request(&self, n: nat, hint: nat) -> nat {
        if hint > self.room() { hint } else { self.room() + 1 }
    }

    /// Chunk growth is geometric: an arena with `k + 2` chunks holds at least
    /// `2^k` values, so `n` values take `O(log n)` chunks.
    pub proof fn lemma_chunk_count_logarithmic(&self)
        requires
            self.wf(),
        ensures
            self.chunks().len() >= 2 ==> pow2((self.chunks().len() - 2) as nat) <= self@.len(),
    {
        let cl = self.chunks;
        cl.lemma_items();
        if cl.rest@.len() > 0 {
            let k = cl.rest@.len() - 1;
            cl.lemma_caps_grow(k);
            assert(cl.caps()[k] == cl.rest_caps@.last());
        }
    }

    /// Growth moves few values: over the arena's life, no more values have
    /// been moved between chunks than the arena holds.
    pub proof fn lemma_copy_work_linear(&self)
        requires
            self.wf(),
        ensures
            self.moved() <= self@.len(),
    {
    }

    proof fn lemma_wf_basics(&self)
        requires
            self.wf(),
        ensures
            self.chunks().len() == self.capacities().len(),
            self.chunks().len() >= 1,
            self.current_len() <= self.current_capacity(),
            self.current_capacity() >= 1,
            self.chunks().last() == self.chunks.current@,
            self.current_capacity() == self.chunks.current_cap,
    {
    }

    /// Construct a new arena whose first chunk takes about 1024 bytes, and at
    /// least one value.
    pub fn new() -> (r: Arena<T>)
        ensures
            r.wf(),
            r@ == Seq::<T>::empty(),
            r.chunks() == seq![Seq::<T>::empty()],
            r.capacities() == seq![initial_capacity(vstd::layout::size_of::<T>())],
            r.moved() == 0,
    {
        let elem_size = core::mem::size_of::<T>();
        let size = if elem_size >= 1 { elem_size } else { 1 };
        Arena::with_capacity(INITIAL_SIZE / size)
    }

    /// Construct a new arena with room for `n` values (at least one) in its
    /// first chunk.
    pub fn with_capacity(n: usize) -> (r: Arena<T>)
        ensures
            r.wf(),
            r@ == Seq::<T>::empty(),
            r.chunks() == seq![Seq::<T>::empty()],
            r.capacities() == seq![first_capacity(n as nat)],
            r.moved() == 0,
    {
        let n = if n >= MIN_CAPACITY { n } else { MIN_CAPACITY };
        let r = Arena {
            chunks: ChunkList {
                current: Vec::with_capacity(n),
                current_cap: n,
                rest: Vec::new(),
                rest_caps: Ghost(Seq::empty()),
                moved: Ghost(0),
            },
        };
        proof {
            assert(r.chunks() =~= seq![Seq::<T>::empty()]);
            assert(r.capacities() =~= seq![first_capacity(n as nat)]);
            assert(r.chunks().drop_last() =~= Seq::<Seq<T>>::empty());
            assert(concat_chunks(Seq::<Seq<T>>::empty()) == Seq::<T>::empty());
            assert(r@ =~= Seq::<T>::empty());
        }
        r
    }

    /// Allocates `value` in the arena and returns a mutable reference to it.
    ///
    /// While the current chunk has room the value is appended to it; when it
    /// is full, a new chunk starts with the value.
    pub fn alloc_value(&mut self, value: T) -> (r: &mut T)
        requires
            old(self).wf(),
            old(self).room() == 0 ==> old(self).can_grow(1),
        ensures
            final(self).wf(),
            *r == value,
            final(self)@ == old(self)@.push(*final(r)),
            slots_kept(old(self).chunks(), final(self).chunks()),
            final(self).moved() == old(self).moved(),
            old(self).room() > 0 ==> {
                &&& final(self).chunks() == old(self).chunks().update(
                    old(self).chunks().len() - 1,
                    old(self).chunks().last().push(*final(r)),
                )
                &&& final(self).capacities() == old(self).capacities()
            },
            old(self).room() == 0 ==> {
                &&& final(self).chunks() == old(self).chunks().push(seq![*final(r)])
                &&& final(self).capacities() == old(self).capacities().push(
                    grown_capacity(old(self).current_capacity(), 1),
                )
            },
    {
        let ghost chunks0 = self.chunks();
        proof {
            self.lemma_wf_basics();
            self.chunks.lemma_items();
            lemma_slots_kept_on_append(chunks0);
            assert forall|x: T|
                #[trigger] concat_chunks(chunks0.update(chunks0.len() - 1, chunks0.last().push(x)))
                    == concat_chunks(chunks0).push(x) by {
                lemma_concat_update_last(chunks0, chunks0.last().push(x));
                assert(chunks0.drop_last().push(chunks0.last()) =~= chunks0);
                lemma_concat_push(chunks0.drop_last(), chunks0.last());
            }
        }
        let len = self.chunks.current.len();
        if len < self.chunks.current_cap {
            self.chunks.current.push(value);
            proof {
                self.chunks.lemma_items();
                self.chunks.lemma_all_same_shape();
                assert forall|x: T| #[trigger] self.chunks.current@.update(len as int, x) == chunks0.last().push(x) by {
                    assert(self.chunks.current@.update(len as int, x) =~= chunks0.last().push(x));
                }
                assert forall|y: Seq<T>| #[trigger] self.chunks.retired().push(y) == chunks0.update(chunks0.len() - 1, y) by {
                    assert(self.chunks.retired().push(y) =~= chunks0.update(chunks0.len() - 1, y));
                }
            }
            &mut self.chunks.current[len]
        } else {
            self.alloc_slow_path(value)
        }
    }

    /// Allocates `value` at the start of a new chunk, the current one being full.
    fn alloc_slow_path(&mut self, value: T) -> (r: &mut T)
        requires
            old(self).wf(),
            old(self).room() == 0,
            old(self).can_grow(1),
        ensures
            final(self).wf(),
            *r == value,
            final(self)@ == old(self)@.push(*final(r)),
            final(self).moved() == old(self).moved(),
            final(self).chunks() == old(self).chunks().push(seq![*final(r)]),
            final(self).capacities() == old(self).capacities().push(
                grown_capacity(old(self).current_capacity(), 1),
            ),
    {
        let ghost chunks0 = self.chunks();
        let mut one = Vec::new();
        one.push(value);
        proof {
            assert(one@ =~= seq![value]);
        }
        self.alloc_extend(one, 1);
        proof {
            self.chunks.lemma_items();
            self.chunks.lemma_all_same_shape();
            assert(self.chunks.retired() =~= self.chunks.chunks().drop_last());
            assert(self.chunks.retired() =~= chunks0);
            assert forall|x: T| #[trigger] self.chunks.current@.update(0, x) == seq![x] by {
                assert(self.chunks.current@.update(0, x) =~= seq![x]);
            }
            assert forall|x: T| #[trigger] concat_chunks(chunks0.push(seq![x])) == concat_chunks(chunks0).push(x) by {
                lemma_concat_push(chunks0, seq![x]);
                assert(concat_chunks(chunks0) + seq![x] =~= concat_chunks(chunks0).push(x));
            }
        }
        &mut self.chunks.current[0]
    }

    /// Converts the arena into a `Vec` that holds its values in the order
    /// they were allocated.
    pub fn into_vec(self) -> (r: Vec<T>)
        ensures
            r@ == self@,
    {
        let mut chunks = self.chunks;
        let ghost all = chunks.chunks();
        proof {
            chunks.lemma_items();
        }
        let n_rest = chunks.rest.len();
        // Room for every value. The total only sizes the allocation, so
        // saturating where it would overflow changes nothing else.
        let mut n: usize = chunks.current.len();
        let mut i: usize = 0;
        while i < n_rest
            invariant
                n_rest == chunks.rest@.len(),
            decreases n_rest - i,
        {
            n = n.saturating_add(chunks.rest[i].len());
            i = i + 1;
        }
        let mut result = Vec::with_capacity(n);
        let mut i: usize = 0;
        while i < n_rest
            invariant
                i <= n_rest,
                n_rest == chunks.rest@.len(),
                forall|j: int| i <= j < n_rest ==> (#[trigger] chunks.rest@[j])@ == all[j],
                chunks.current@ == all.last(),
                all.len() == n_rest + 1,
                result@ == concat_chunks(all.subrange(0, i as int)),
            decreases n_rest - i,
        {
            proof {
                assert(all.subrange(0, i + 1).drop_last() =~= all.subrange(0, i as int));
            }
            result.append(&mut chunks.rest[i]);
            i = i + 1;
        }
        result.append(&mut chunks.current);
        proof {
            assert(all.subrange(0, n_rest + 1) =~= all);
            assert(all.subrange(0, n_rest + 1).drop_last() =~= all.subrange(0, n_rest as int));
        }
        result
    }

    /// Whether `cl` is the storage of `self`.
    pub closed spec fn stored_in(&self, cl: ChunkList<T>) -> bool {
        self.chunks == cl
    }

    /// Returns an iterator that lends out each value, in allocation order,
    /// for modification. The arena is borrowed exclusively while it lives,
    /// so nothing can be allocated meanwhile; what it leaves in the storage
    /// is what the arena holds afterwards.
    pub fn iter_mut(&mut self) -> (r: IterMut<'_, T>)
        requires
            old(self).wf(),
        ensures
            r.wf(),
            r.values() == old(self)@,
            r.pos() == 0,
            final(self).stored_in(*final(r.target())),
            final(self)@ == (*final(r.target())).items(),
            (*final(r.target())).wf() ==> final(self).wf(),
    {
        IterMut::new(&mut self.chunks)
    }

    /// Places `items`, in order, contiguously at the end of the arena's
    /// current chunk and returns the positions they took in that chunk. `size_hint` is a lower bound on the
    /// number of values, as a lazy producer would announce it.
    ///
    /// Values go into the current chunk while it has room. Where the hint
    /// already exceeds that room, a new chunk is started first. Where the
    /// current chunk fills up before the values run out, a new chunk is
    /// started and the values of this call that went into the old chunk are
    /// moved over, so that the result stays contiguous; values of earlier
    /// calls are never moved.
    pub fn alloc_extend(&mut self, items: Vec<T>, size_hint: usize) -> (r: core::ops::Range<usize>)
        requires
            old(self).wf(),
            size_hint <= items@.len(),
            old(self).extend_grows(items@.len() as nat, size_hint as nat)
                ==> old(self).can_grow(old(self).extend_request(items@.len() as nat, size_hint as nat)),
        ensures
            final(self).wf(),
            r.end == final(self).current_len(),
            final(self).chunks().last().subrange(r.start as int, r.end as int) == items@,
            final(self)@ == old(self)@ + items@,
            slots_kept(old(self).chunks(), final(self).chunks()),
            final(self).moved() == old(self).moved() + old(self).extend_moves(items@.len() as nat, size_hint as nat),
            !old(self).extend_grows(items@.len() as nat, size_hint as nat) ==> {
                &&& final(self).chunks() == old(self).chunks().update(
                    old(self).chunks().len() - 1,
                    old(self).chunks().last() + items@,
                )
                &&& final(self).capacities() == old(self).capacities()
            },
            old(self).extend_grows(items@.len() as nat, size_hint as nat) ==> {
                &&& final(self).chunks() == old(self).chunks().push(items@)
                &&& final(self).capacities() == old(self).capacities().push(
                    grown_or_filled(
                        old(self).current_capacity(),
                        old(self).extend_request(items@.len() as nat, size_hint as nat),
                        items@.len() as nat,
                    ),
                )
            },
    {
        let mut items = items;
        let ghost old_items = items@;
        let ghost n = items@.len();
        let ghost ret0 = self.chunks.retired();
        let ghost c0 = self.chunks.current@;
        let ghost grows = self.extend_grows(n as nat, size_hint as nat);
        proof {
            lemma_slots_kept_on_append(self.chunks());
            self.lemma_wf_basics();
            self.chunks.lemma_items();
        }
        let len = self.chunks.current.len();
        let room = self.chunks.current_cap - len;
        let start: usize;
        if size_hint > room {
            self.chunks.reserve(size_hint);
            self.chunks.current.append(&mut items);
            start = 0;
        } else if items.len() <= room {
            self.chunks.current.append(&mut items);
            start = len;
        } else {
            // The values outgrow the announced room: fill the chunk, then
            // carry this call's part of it over to a new chunk.
            let mut tail = items.split_off(room);
            self.chunks.current.append(&mut items);
            proof {
                self.chunks.lemma_items();
                assert(self.chunks.retired() =~= ret0);
            }
            self.chunks.reserve(room + 1);
            let last = self.chunks.rest.len() - 1;
            let previous_len = self.chunks.rest[last].len();
            let mut moved = self.chunks.rest[last].split_off(previous_len - room);
            proof {
                assert(self.chunks.rest@[last as int]@ =~= c0);
                assert(moved@ =~= old_items.subrange(0, room as int));
            }
            self.chunks.current.append(&mut moved);
            self.chunks.current.append(&mut tail);
            proof {
                self.chunks.moved = Ghost(self.chunks.moved@ + room as nat);
            }
            start = 0;
        }
        if self.chunks.current.len() > self.chunks.current_cap {
            self.chunks.current_cap = self.chunks.current.len();
        }
        proof {
            self.chunks.lemma_items();
            if grows {
                assert(self.chunks.current@ =~= old_items);
                assert(self.chunks.retired() =~= ret0.push(c0));
                lemma_concat_push(ret0, c0);
            } else {
                assert(self.chunks.current@ =~= c0 + old_items);
                assert(self.chunks.retired() =~= ret0);
            }
            assert(self.chunks.wf());
        }
        let end = self.chunks.current.len();
        start..end
    }
}

impl<T> Default for Arena<T> {
    /// An arena as `Arena::new` makes it.
    fn default() -> (r: Self)
        ensures
            r.wf(),
            r@ == Seq::<T>::empty(),
            r.chunks() == seq![Seq::<T>::empty()],
            r.capacities() == seq![initial_capacity(vstd::layout::size_of::<T>())],
            r.moved() == 0,
    {
        Self::new()
    }
}

} // verus!
