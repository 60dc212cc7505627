//! Batches: fixed-size windows over a list, used to page through the
//! vocabulary.

use vstd::prelude::*;
use crate::error::VocabError;

verus! {

/// The smallest batch size that makes a set of flashcards.
pub const MIN_BATCH_SIZE: usize = 3;

/// Where batch `number` of batches of `size` items begins in a list of `len`
/// items: at place `number * size`, or at the end of the list where that
/// lies beyond it.
pub open spec fn batch_start(len: nat, number: nat, size: nat) -> nat {
    if number * size <= len {
        number * size
    } else {
        len
    }
}

/// Where batch `number` of batches of `size` items ends in a list of `len`
/// items: `size` places behind its beginning, or at the end of the list
/// where that lies beyond it.
pub open spec fn batch_end(len: nat, number: nat, size: nat) -> nat {
    if number * size + size <= len {
        number * size + size
    } else {
        len
    }
}

/// Batch `number` of a list cut into batches of `size` items: the items from
/// place `number * size` on, `size` of them or as many as are left.
pub open spec fn batch_spec<A>(items: Seq<A>, number: nat, size: nat) -> Seq<A> {
    items.subrange(
        batch_start(items.len(), number, size) as int,
        batch_end(items.len(), number, size) as int,
    )
}

/// The number of whole batches of `size` items in a list of `len` items.
pub open spec fn whole_batches(len: nat, size: nat) -> nat
    recommends
        size > 0,
{
    len / size
}

/// A batch begins no later than it ends, and holds `size` items at most.
pub proof fn lemma_batch_bounds(len: nat, number: nat, size: nat)
    ensures
        batch_start(len, number, size) <= batch_end(len, number, size) <= len,
        batch_end(len, number, size) - batch_start(len, number, size) <= size,
        number * size + size <= len ==> batch_end(len, number, size) - batch_start(
            len,
            number,
            size,
        ) == size,
{
    assert(number * size >= 0) by (nonlinear_arith);
}

/// The first batch is the beginning of the list: its first `size` items, or
/// all of them where the list is shorter.
pub proof fn lemma_first_batch<A>(items: Seq<A>, size: nat)
    ensures
        size <= items.len() ==> batch_spec(items, 0, size) == items.take(size as int),
        size >= items.len() ==> batch_spec(items, 0, size) == items,
{
    assert(0 * size == 0) by (nonlinear_arith);
    if size >= items.len() {
        assert(items.subrange(0, items.len() as int) =~= items);
    }
}

/// A batch whose number lies beyond the number of whole batches is empty,
/// and so is every batch of size zero.
pub proof fn lemma_batch_beyond_end<A>(items: Seq<A>, number: nat, size: nat)
    ensures
        size > 0 && number > whole_batches(items.len(), size) ==> batch_spec(items, number, size)
            == Seq::<A>::empty(),
        size == 0 ==> batch_spec(items, number, size) == Seq::<A>::empty(),
{
    let len = items.len();
    if size > 0 && number > len / size {
        assert(number * size > len) by (nonlinear_arith)
            requires
                size > 0,
                number >= len / size + 1,
        {
            assert(len == size * (len / size) + len % size);
            assert(len % size < size);
            assert(number * size >= (len / size + 1) * size);
            assert((len / size + 1) * size == size * (len / size) + size);
        }
        assert(batch_spec(items, number, size) =~= Seq::<A>::empty());
    }
    if size == 0 {
        assert(number * size == 0) by (nonlinear_arith)
            requires
                size == 0,
        ;
        assert(batch_spec(items, number, size) =~= Seq::<A>::empty());
    }
}

/// A batch is empty exactly when the list ends before the batch begins, or
/// when batches hold nothing.
pub proof fn lemma_batch_empty<A>(items: Seq<A>, number: nat, size: nat)
    ensures
        batch_spec(items, number, size).len() == 0 <==> size == 0 || number * size >= items.len(),
{
    assert(number * size >= 0) by (nonlinear_arith);
}

/// Batches adjoin: each begins where the one before it ends.
pub proof fn lemma_batches_adjoin(len: nat, number: nat, size: nat)
    ensures
        batch_start(len, number + 1, size) == batch_end(len, number, size),
{
    assert((number + 1) * size == number * size + size) by (nonlinear_arith);
}

/// Computes where a batch begins and ends in a list of `len` items.
pub fn batch_bounds(len: usize, number: usize, size: usize) -> (bounds: (usize, usize))
    ensures
        bounds.0 == batch_start(len as nat, number as nat, size as nat),
        bounds.1 == batch_end(len as nat, number as nat, size as nat),
        bounds.0 <= bounds.1 <= len,
{
    let start = match number.checked_mul(size) {
        Some(offset) => if offset <= len {
            offset
        } else {
            len
        },
        None => len,
    };
    let end = if size <= len - start {
        start + size
    } else {
        len
    };
    proof {
        assert(number * size >= 0) by (nonlinear_arith);
    }
    (start, end)
}

/// A choice of batch that has been found meaningful: its size is at least
/// three.
#[derive(Clone, Copy, Debug, PartialEq, Eq)]
pub struct BatchRequest {
    number: usize,
    size: usize,
}

impl BatchRequest {
    #[verifier::type_invariant]
    closed spec fn inv(&self) -> bool {
        self.size >= MIN_BATCH_SIZE
    }

    /// The number of the batch, counted from zero.
    pub closed spec fn number_spec(&self) -> usize {
        self.number
    }

    /// The number of items in a full batch.
    pub closed spec fn size_spec(&self) -> usize {
        self.size
    }

    /// Accepts a choice of batch, or rejects it where the size is less than
    /// three.
    pub fn new(number: usize, size: usize) -> (request: Result<BatchRequest, VocabError>)
        ensures
            match request {
                Ok(r) => size >= MIN_BATCH_SIZE && r.number_spec() == number && r.size_spec()
                    == size,
                Err(e) => size < MIN_BATCH_SIZE && e == VocabError::BatchSizeRejected,
            },
    {
        if size < MIN_BATCH_SIZE {
            Err(VocabError::BatchSizeRejected)
        } else {
            Ok(BatchRequest { number, size })
        }
    }

    /// The number of the batch, counted from zero.
    #[verifier::when_used_as_spec(number_spec)]
    pub fn number(&self) -> (number: usize)
        ensures
            number == self.number_spec(),
    {
        self.number
    }

    /// The number of items in a full batch.
    #[verifier::when_used_as_spec(size_spec)]
    pub fn size(&self) -> (size: usize)
        ensures
            size == self.size_spec(),
            size >= MIN_BATCH_SIZE,
    {
        proof {
            use_type_invariant(self);
        }
        self.size
    }

    /// The number of whole batches that a list of `len` items holds.
    pub fn whole_batches(&self, len: usize) -> (count: usize)
        ensures
            count == whole_batches(len as nat, self.size_spec() as nat),
    {
        proof {
            use_type_invariant(self);
        }
        len / self.size
    }

    /// Where the chosen batch begins and ends in a list of `len` items, or
    /// the report that the list ends before the batch begins.
    pub fn window(&self, len: usize) -> (bounds: Result<(usize, usize), VocabError>)
        ensures
            match bounds {
                Ok((start, end)) => {
                    &&& start == batch_start(
                        len as nat,
                        self.number_spec() as nat,
                        self.size_spec() as nat,
                    )
                    &&& end == batch_end(
                        len as nat,
                        self.number_spec() as nat,
                        self.size_spec() as nat,
                    )
                    &&& start < end <= len
                },
                Err(e) => {
                    &&& e == VocabError::EmptyBatchSelection
                    &&& self.number_spec() * self.size_spec() >= len
                },
            },
    {
        proof {
            use_type_invariant(self);
            assert(self.number * self.size >= 0) by (nonlinear_arith);
        }
        let (start, end) = batch_bounds(len, self.number, self.size);
        if start < end {
            Ok((start, end))
        } else {
            Err(VocabError::EmptyBatchSelection)
        }
    }
}

} // verus!
