//! Growable array of fixed-length vectors stored in equal-sized chunks.
//!
//! Growth allocates one chunk at a time and never moves slots that already
//! exist. Every slot holds exactly `dim` 32-bit elements; slots materialized
//! by `insert` below the target index are filled with zeroes.

use vstd::prelude::*;
use vstd::pervasive::VecAdditionalExecFns;
use vstd::arithmetic::div_mod::lemma_fundamental_div_mod;

verus! {

/// Byte budget of one chunk. Whole vectors are packed into a chunk, and a
/// chunk holds at least one vector however large the dimension is; the value
/// is a knob with no observable semantics.
pub const CHUNK_BYTES: usize = 32 * 1024;

/// The contents of a slot that was materialized but never written.
pub open spec fn zero_slot(dim: int) -> Seq<u32> {
    Seq::new(dim as nat, |j: int| 0u32)
}

pub struct ChunkedVectors {
    dim: usize,
    len: usize,
    /// Number of slots per chunk.
    capacity: usize,
    /// Number of allocated slots past `len`, always inside the last chunk.
    spare: usize,
    chunks: Vec<Vec<Vec<u32>>>,
}

impl View for ChunkedVectors {
    type V = Seq<Seq<u32>>;

    closed spec fn view(&self) -> Seq<Seq<u32>> {
        Seq::new(
            self.len as nat,
            |i: int| self.chunks@[i / (self.capacity as int)]@[i % (self.capacity as int)]@,
        )
    }
}

/// For `0 <= i < n * cap`, the chunk index `i / cap` and the in-chunk index
/// `i % cap` are in range, and together they determine `i`.
proof fn lemma_index_split(i: int, cap: int, n: int)
    requires
        0 <= i,
        1 <= cap,
        i < n * cap,
    ensures
        0 <= i / cap < n,
        0 <= i % cap < cap,
        i == (i / cap) * cap + (i % cap),
{
    lemma_fundamental_div_mod(i, cap);
    assert(i == cap * (i / cap) + (i % cap));
    assert(0 <= i % cap < cap) by (nonlinear_arith)
        requires 0 <= i && 1 <= cap,;
    assert(i / cap >= 0) by (nonlinear_arith)
        requires 0 <= i && 1 <= cap,;
    assert(i / cap < n) by (nonlinear_arith)
        requires
            1 <= cap,
            i < n * cap,
            i == cap * (i / cap) + (i % cap),
            0 <= i % cap,;
}

impl ChunkedVectors {
    /// Fixed vector length of every slot.
    pub closed spec fn spec_dim(self) -> int {
        self.dim as int
    }

    pub closed spec fn wf(self) -> bool {
        &&& 1 <= self.dim
        &&& 1 <= self.capacity
        &&& self.len + self.spare == self.chunks@.len() * (self.capacity as int)
        &&& self.spare <= self.capacity
        &&& self.len <= u32::MAX
        &&& forall|c: int|
            0 <= c < self.chunks@.len() ==> (#[trigger] self.chunks@[c])@.len()
                == self.capacity
        &&& forall|c: int, k: int|
            0 <= c < self.chunks@.len() && 0 <= k < self.capacity
                ==> (#[trigger] self.chunks@[c]@[k])@.len() == self.dim
    }

    /// Every slot of a well-formed array holds exactly `dim` elements.
    pub proof fn lemma_slot_len(self, i: int)
        requires
            self.wf(),
            0 <= i < self@.len(),
        ensures
            self@[i].len() == self.spec_dim(),
    {
        lemma_index_split(i, self.capacity as int, self.chunks@.len() as int);
    }

    pub fn new(dim: usize) -> (r: ChunkedVectors)
        requires
            1 <= dim,
        ensures
            r.wf(),
            r@ =~= Seq::<Seq<u32>>::empty(),
            r.spec_dim() == dim as int,
    {
        let per_chunk = CHUNK_BYTES / 4 / dim;
        let capacity = if per_chunk == 0 {
            1
        } else {
            per_chunk
        };
        let r = ChunkedVectors { dim, len: 0, capacity, spare: 0, chunks: Vec::new() };
        proof {
            assert(r.len + r.spare == r.chunks@.len() * (r.capacity as int));
        }
        r
    }

    pub fn len(&self) -> (r: usize)
        ensures
            r == self@.len(),
    {
        self.len
    }

    /// An owned copy of one vector.
    fn copy_vector(vector: &Vec<u32>) -> (r: Vec<u32>)
        ensures
            r@ == vector@,
    {
        let mut out: Vec<u32> = Vec::new();
        let mut j: usize = 0;
        while j < vector.len()
            invariant
                j <= vector@.len(),
                out@ == vector@.take(j as int),
            decreases vector@.len() - j,
        {
            out.push(vector[j]);
            proof {
                assert(out@ =~= vector@.take(j + 1 as int));
            }
            j = j + 1;
        }
        proof {
            assert(out@ =~= vector@);
        }
        out
    }

    /// A zero-filled vector of the given length.
    fn zero_vector(dim: usize) -> (r: Vec<u32>)
        ensures
            r@ == zero_slot(dim as int),
    {
        let mut out: Vec<u32> = Vec::new();
        let mut j: usize = 0;
        while j < dim
            invariant
                j <= dim,
                out@.len() == j,
                forall|k: int| 0 <= k < j ==> out@[k] == 0u32,
            decreases dim - j,
        {
            out.push(0u32);
            j = j + 1;
        }
        proof {
            assert(out@ =~= zero_slot(dim as int));
        }
        out
    }

    pub fn get(&self, key: u32) -> (r: Vec<u32>)
        requires
            self.wf(),
            (key as int) < self@.len(),
        ensures
            r@ == self@[key as int],
    {
        let i = key as usize;
        proof {
            lemma_index_split(i as int, self.capacity as int, self.chunks@.len() as int);
        }
        let c = i / self.capacity;
        let k = i % self.capacity;
        Self::copy_vector(&self.chunks[c][k])
    }

    /// Overwrites one existing slot.
    fn write_slot(&mut self, i: usize, vector: &Vec<u32>)
        requires
            old(self).wf(),
            (i as int) < old(self)@.len(),
            vector@.len() == old(self).spec_dim(),
        ensures
            final(self).wf(),
            final(self).spec_dim() == old(self).spec_dim(),
            final(self)@ == old(self)@.update(i as int, vector@),
    {
        proof {
            lemma_index_split(i as int, self.capacity as int, self.chunks@.len() as int);
        }
        let c = i / self.capacity;
        let k = i % self.capacity;
        let chunk = &mut self.chunks[c];
        chunk.set(k, Self::copy_vector(vector));
        proof {
            let cap = self.capacity as int;
            let n = self.chunks@.len() as int;
            assert forall|j: int| 0 <= j < self@.len() && j != i as int implies self@[j]
                == old(self)@[j] by {
                lemma_index_split(j, cap, n);
                if j / cap == c as int {
                    lemma_fundamental_div_mod(j, cap);
                    lemma_fundamental_div_mod(i as int, cap);
                    assert(j % cap != k as int);
                }
            }
            assert(self@[i as int] == vector@);
            assert(self@ =~= old(self)@.update(i as int, vector@));
        }
    }

    /// Appends one vector, allocating a fresh zeroed chunk when the last one
    /// is full; the new slot's id is the length before the call.
    pub fn push(&mut self, vector: &Vec<u32>) -> (key: u32)
        requires
            old(self).wf(),
            vector@.len() == old(self).spec_dim(),
            old(self)@.len() < u32::MAX,
        ensures
            final(self).wf(),
            final(self).spec_dim() == old(self).spec_dim(),
            final(self)@ == old(self)@.push(vector@),
            key as int == old(self)@.len(),
    {
        if self.spare == 0 {
            let mut chunk: Vec<Vec<u32>> = Vec::new();
            let mut k: usize = 0;
            while k < self.capacity
                invariant
                    k <= self.capacity,
                    chunk@.len() == k,
                    forall|j: int| 0 <= j < k ==> (#[trigger] chunk@[j])@.len() == self.dim,
                decreases self.capacity - k,
            {
                chunk.push(Self::zero_vector(self.dim));
                k = k + 1;
            }
            self.chunks.push(chunk);
            self.spare = self.capacity;
            proof {
                assert(self.len + self.spare == self.chunks@.len() * (self.capacity as int))
                    by (nonlinear_arith)
                    requires
                        self.len + self.spare == (self.chunks@.len() - 1) * (self.capacity as int)
                            + self.capacity,;
                assert forall|i: int| 0 <= i < self@.len() implies self@[i] == old(self)@[i] by {
                    lemma_index_split(i, self.capacity as int, old(self).chunks@.len() as int);
                }
                assert(self@ =~= old(self)@);
            }
        }
        let key = self.len;
        self.len = self.len + 1;
        self.spare = self.spare - 1;
        proof {
            assert(self@.len() == old(self)@.len() + 1);
        }
        self.write_slot(key, vector);
        proof {
            assert(self@ =~= old(self)@.push(vector@));
        }
        key as u32
    }

    /// Places a vector at slot `key`, materializing zero-filled slots in
    /// between when the array has to grow; existing other slots are kept.
    pub fn insert(&mut self, key: u32, vector: &Vec<u32>)
        requires
            old(self).wf(),
            vector@.len() == old(self).spec_dim(),
            (key as int) < u32::MAX,
        ensures
            final(self).wf(),
            final(self).spec_dim() == old(self).spec_dim(),
            final(self)@.len() == if old(self)@.len() <= key as int {
                key as int + 1
            } else {
                old(self)@.len() as int
            },
            final(self)@[key as int] == vector@,
            forall|i: int|
                0 <= i < old(self)@.len() && i != key as int ==> final(self)@[i] == old(self)@[i],
            forall|i: int|
                old(self)@.len() <= i < final(self)@.len() && i != key as int ==> final(self)@[i]
                    == zero_slot(old(self).spec_dim()),
    {
        let zeroes = Self::zero_vector(self.dim);
        while self.len <= key as usize
            invariant
                self.wf(),
                self.spec_dim() == old(self).spec_dim(),
                zeroes@ == zero_slot(old(self).spec_dim()),
                old(self)@.len() <= self@.len(),
                self@.len() <= old(self)@.len() || self@.len() <= (key as int) + 1,
                (key as int) < u32::MAX,
                forall|i: int| 0 <= i < old(self)@.len() ==> self@[i] == old(self)@[i],
                forall|i: int|
                    old(self)@.len() <= i < self@.len() ==> self@[i] == zero_slot(
                        old(self).spec_dim(),
                    ),
            decreases (key as int) + 1 - self@.len(),
        {
            let _ = self.push(&zeroes);
        }
        self.write_slot(key as usize, vector);
    }
}

} // verus!
