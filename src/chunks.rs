use vstd::prelude::*;

use crate::pow2::{checked_next_power_of_two, next_pow2, pow2};

verus! {

/// The concatenation of a sequence of chunks, oldest first.
pub open spec fn concat_chunks<T>(chunks: Seq<Seq<T>>) -> Seq<T>
    decreases chunks.len(),
{
    if chunks.len() == 0 {
        Seq::empty()
    } else {
        concat_chunks(chunks.drop_last()) + chunks.last()
    }
}

/// Position, in the concatenation, of the first value of chunk `c`.
pub open spec fn offset<T>(chunks: Seq<Seq<T>>, c: int) -> nat {
    concat_chunks(chunks.subrange(0, c)).len()
}

/// The concatenation has as many values as the chunks together.
pub proof fn lemma_concat_len_same<T>(a: Seq<Seq<T>>, b: Seq<Seq<T>>)
    requires
        a.len() == b.len(),
        forall|i: int| 0 <= i < a.len() ==> (#[trigger] a[i]).len() == b[i].len(),
    ensures
        concat_chunks(a).len() == concat_chunks(b).len(),
    decreases a.len(),
{
    if a.len() > 0 {
        lemma_concat_len_same(a.drop_last(), b.drop_last());
    }
}

/// Chunk `c + 1` starts where chunk `c` ends.
pub proof fn lemma_offset_next<T>(chunks: Seq<Seq<T>>, c: int)
    requires
        0 <= c < chunks.len(),
    ensures
        offset(chunks, c + 1) == offset(chunks, c) + chunks[c].len(),
        offset(chunks, chunks.len() as int) == concat_chunks(chunks).len(),
{
    assert(chunks.subrange(0, c + 1).drop_last() =~= chunks.subrange(0, c));
    assert(chunks.subrange(0, chunks.len() as int) =~= chunks);
}

/// Changing one value of chunk `c` changes the value at the matching
/// position of the concatenation.
pub proof fn lemma_concat_update<T>(chunks: Seq<Seq<T>>, c: int, j: int, x: T)
    requires
        0 <= c < chunks.len(),
        0 <= j < chunks[c].len(),
    ensures
        offset(chunks, c) + chunks[c].len() <= concat_chunks(chunks).len(),
        concat_chunks(chunks.update(c, chunks[c].update(j, x))) == concat_chunks(chunks).update(offset(chunks, c) + j, x),
    decreases chunks.len(),
{
    let upd = chunks.update(c, chunks[c].update(j, x));
    let init = chunks.drop_last();
    if c == chunks.len() - 1 {
        assert(chunks.subrange(0, c) =~= init);
        assert(upd.drop_last() =~= init);
        assert(concat_chunks(upd) =~= concat_chunks(chunks).update(offset(chunks, c) + j, x));
    } else {
        lemma_concat_update(init, c, j, x);
        assert(chunks.subrange(0, c) =~= init.subrange(0, c));
        assert(upd.drop_last() =~= init.update(c, init[c].update(j, x)));
        assert(concat_chunks(upd) =~= concat_chunks(chunks).update(offset(chunks, c) + j, x));
    }
}

/// Capacity of the chunk that `reserve` creates after a chunk of capacity
/// `cap` when `additional` slots are requested.
pub open spec fn grown_capacity(cap: nat, additional: nat) -> nat {
    if 2 * cap >= next_pow2(additional) {
        2 * cap
    } else {
        next_pow2(additional)
    }
}

/// Whether growing a chunk of capacity `cap` for `additional` slots keeps
/// every capacity computation within a `usize`.
pub open spec fn growth_fits(cap: nat, additional: nat) -> bool {
    2 * cap <= usize::MAX && next_pow2(additional) <= usize::MAX
}

/// The storage of an arena: the chunk that receives new values and the
/// retired chunks before it.
pub struct ChunkList<T> {
    pub current: Vec<T>,
    /// The capacity `current` was created with; it never holds more.
    pub current_cap: usize,
    pub rest: Vec<Vec<T>>,
    /// The capacity each retired chunk was created with.
    pub rest_caps: Ghost<Seq<nat>>,
    /// How many values have been moved from one chunk to another so far.
    pub moved: Ghost<nat>,
}

impl<T> ChunkList<T> {
    /// The contents of every chunk, the retired ones first, `current` last.
    pub open spec fn chunks(&self) -> Seq<Seq<T>> {
        self.rest@.map_values(|v: Vec<T>| v@).push(self.current@)
    }

    /// The contents of the retired chunks, oldest first.
    pub open spec fn retired(&self) -> Seq<Seq<T>> {
        self.rest@.map_values(|v: Vec<T>| v@)
    }

    /// The values of the retired chunks come first, those of `current` last.
    pub proof fn lemma_items(&self)
        ensures
            self.chunks() == self.retired().push(self.current@),
            self.items() == concat_chunks(self.retired()) + self.current@,
            self.retired().len() == self.rest@.len(),
    {
        assert(self.chunks().drop_last() =~= self.retired());
    }

    /// `other` has the chunks of `self` with the same lengths; only the values
    /// in `current` may differ.
    pub open spec fn same_shape(&self, other: &Self) -> bool {
        &&& other.rest@.len() == self.rest@.len()
        &&& forall|i: int| 0 <= i < self.rest@.len() ==> (#[trigger] other.rest@[i])@.len() == self.rest@[i]@.len()
        &&& other.rest_caps == self.rest_caps
        &&& other.moved == self.moved
        &&& other.current_cap == self.current_cap
        &&& other.current@.len() == self.current@.len()
    }

    pub proof fn lemma_same_shape(&self, other: &Self)
        requires
            self.wf(),
            self.same_shape(other),
        ensures
            other.wf(),
            other.rest == self.rest ==> other.chunks() == self.retired().push(other.current@),
            other.rest == self.rest ==> other.items() == concat_chunks(self.retired()) + other.current@,
    {
        self.lemma_items();
        other.lemma_items();
        assert(other.caps() == self.caps());
        assert forall|i: int| 0 <= i < self.chunks().len() implies (#[trigger] self.chunks()[i]).len()
            == other.chunks()[i].len() by {
            if i < self.rest@.len() {
                assert(other.rest@[i]@.len() == self.rest@[i]@.len());
            }
        }
        lemma_concat_len_same(self.chunks(), other.chunks());
    }

    /// Every chunk list with the shape of `self` is well formed, and its values
    /// are those of the retired chunks followed by those of `current`.
    pub proof fn lemma_all_same_shape(&self)
        requires
            self.wf(),
        ensures
            forall|b: Self| self.same_shape(&b) ==> #[trigger] b.wf(),
            forall|b: Self| self.same_shape(&b) && b.rest == self.rest ==> #[trigger] b.chunks() == self.retired().push(b.current@),
            forall|b: Self| self.same_shape(&b) && b.rest == self.rest ==> #[trigger] b.items() == concat_chunks(self.retired()) + b.current@,
    {
        assert forall|b: Self| self.same_shape(&b) implies #[trigger] b.wf() by {
            self.lemma_same_shape(&b);
        }
        assert forall|b: Self| self.same_shape(&b) && b.rest == self.rest implies #[trigger] b.chunks() == self.retired().push(b.current@) by {
            self.lemma_same_shape(&b);
        }
        assert forall|b: Self| self.same_shape(&b) && b.rest == self.rest implies #[trigger] b.items() == concat_chunks(self.retired()) + b.current@ by {
            self.lemma_same_shape(&b);
        }
    }

    /// Each chunk has at least `2^i` slots, `i` being its position.
    pub proof fn lemma_caps_grow(&self, i: int)
        requires
            self.wf_shape(),
            0 <= i < self.caps().len(),
        ensures
            self.caps()[i] >= pow2(i as nat),
        decreases i,
    {
        if i == 0 {
            if self.rest@.len() > 0 {
                assert(self.caps()[0] == self.rest_caps@[0]);
            }
        } else {
            self.lemma_caps_grow(i - 1);
            assert(2 * self.caps()[i - 1] <= self.caps()[i]);
        }
    }

    /// The capacity of every chunk, in the same order as `chunks`.
    pub open spec fn caps(&self) -> Seq<nat> {
        self.rest_caps@.push(self.current_cap as nat)
    }

    /// Every stored value, in the order of allocation.
    pub open spec fn items(&self) -> Seq<T> {
        concat_chunks(self.chunks())
    }

    /// Everything `wf` asks but that the retired chunks account for enough
    /// values.
    pub open spec fn wf_shape(&self) -> bool {
        &&& self.rest_caps@.len() == self.rest@.len()
        &&& 1 <= self.current_cap
        &&& self.current@.len() <= self.current_cap
        &&& forall|i: int| 0 <= i < self.rest@.len() ==> (#[trigger] self.rest@[i])@.len() <= self.rest_caps@[i]
        &&& forall|i: int| 0 <= i < self.rest@.len() ==> #[trigger] self.rest_caps@[i] >= 1
        &&& forall|i: int| 0 <= i < self.rest@.len() ==> 2 * #[trigger] self.caps()[i] <= self.caps()[i + 1]
    }

    /// Well-formedness. A chunk is only retired once the arena holds at least
    /// as many values as that chunk had room for.
    pub open spec fn wf(&self) -> bool {
        &&& self.wf_shape()
        &&& self.rest@.len() > 0 ==> self.items().len() >= self.rest_caps@.last()
        &&& self.moved@ <= self.items().len()
    }

    /// Retires `current`, unchanged, and starts a new empty chunk with room
    /// for at least `additional` values and at least twice the old capacity.
    pub fn reserve(&mut self, additional: usize)
        requires
            old(self).wf(),
            growth_fits(old(self).current_cap as nat, additional as nat),
            old(self).current@.len() + additional > old(self).current_cap,
        ensures
            final(self).wf_shape(),
            final(self).current@ == Seq::<T>::empty(),
            final(self).current_cap == grown_capacity(old(self).current_cap as nat, additional as nat),
            final(self).rest@ == old(self).rest@.push(old(self).current),
            final(self).rest_caps@ == old(self).rest_caps@.push(old(self).current_cap as nat),
            final(self).chunks() == old(self).chunks().push(Seq::<T>::empty()),
            final(self).items() == old(self).items(),
            final(self).moved == old(self).moved,
    {
        let double_cap = self.current_cap * 2;
        let required_cap = match checked_next_power_of_two(additional) {
            Some(p) => p,
            None => { proof { assert(false); } 0 },
        };
        let new_capacity = if double_cap >= required_cap { double_cap } else { required_cap };
        let mut chunk = Vec::with_capacity(new_capacity);
        std::mem::swap(&mut self.current, &mut chunk);
        self.rest.push(chunk);
        self.current_cap = new_capacity;
        proof {
            self.rest_caps@ = self.rest_caps@.push(old(self).current_cap as nat);
            let old_chunks = old(self).chunks();
            assert(self.chunks() =~= old_chunks.push(Seq::<T>::empty()));
            assert(self.chunks().drop_last() =~= old_chunks);
            assert(self.items() =~= old(self).items());
            assert(self.caps() =~= old(self).caps().push(new_capacity as nat));
            assert forall|i: int| 0 <= i < self.rest@.len() implies 2 * #[trigger] self.caps()[i] <= self.caps()[i + 1] by {
                if i + 1 < self.rest@.len() {
                    assert(self.caps()[i] == old(self).caps()[i]);
                    assert(self.caps()[i + 1] == old(self).caps()[i + 1]);
                }
            }
            assert forall|i: int| 0 <= i < self.rest@.len() implies #[trigger] self.rest_caps@[i] >= 1 by {
                if i + 1 < self.rest@.len() {
                    assert(self.rest_caps@[i] == old(self).rest_caps@[i]);
                }
            }
            assert forall|i: int| 0 <= i < self.rest@.len() implies (#[trigger] self.rest@[i])@.len() <= self.rest_caps@[i] by {
                if i + 1 < self.rest@.len() {
                    assert(self.rest@[i] == old(self).rest@[i]);
                }
            }
        }
    }
}

} // verus!
