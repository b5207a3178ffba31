//! In-memory vector storage with write-through persistence records.
//!
//! Every mutation updates the chunked array and the tombstone mask and
//! appends the encoded record of each changed slot to a queue of pending
//! writes; the caller drains the queue into the durable column before it
//! reports the mutation as done, which keeps the column a mirror of memory.
//! The load path rebuilds a storage from the column's `(key, value)` pairs,
//! in whatever order the column yields them.

use vstd::prelude::*;
use core::sync::atomic::{AtomicBool, Ordering};
use crate::chunked::{zero_slot, ChunkedVectors};
use crate::codec::{
    decode_point_id, decode_record, encode_point_id, encode_record, key_bytes,
    lemma_key_round_trip, lemma_record_round_trip, record_bytes, spec_decode_key,
    spec_decode_record, StoredRecord,
};
use crate::mask::{
    mask_bits, mask_get, mask_new, mask_push, mask_resize, mask_set, DeletedMask,
};

verus! {

/// Distance metric chosen when a storage is opened.
#[derive(Clone, Copy, PartialEq, Eq, Structural, Debug)]
pub enum Distance {
    Cosine,
    Euclid,
    Dot,
}

/// Errors the storage core surfaces.
#[derive(Clone, Copy, PartialEq, Eq, Structural, Debug)]
pub enum StorageError {
    /// A key read back from the column is corrupt or out of id space.
    KeyDecode,
    /// A record read back from the column is corrupt.
    RecordDecode,
    /// A record read back from the column has the wrong vector length.
    DimensionMismatch,
    /// A transfer was aborted through its stop flag.
    Cancelled,
}

/// Number of `true` bits in a mask.
pub open spec fn count_true(s: Seq<bool>) -> int
    decreases s.len(),
{
    if s.len() == 0 {
        0
    } else {
        count_true(s.drop_last()) + if s.last() {
            1int
        } else {
            0int
        }
    }
}

pub proof fn lemma_count_true_bound(s: Seq<bool>)
    ensures
        0 <= count_true(s) <= s.len(),
    decreases s.len(),
{
    if s.len() > 0 {
        lemma_count_true_bound(s.drop_last());
    }
}

pub proof fn lemma_count_true_push(s: Seq<bool>, b: bool)
    ensures
        count_true(s.push(b)) == count_true(s) + if b {
            1int
        } else {
            0int
        },
{
    assert(s.push(b).drop_last() =~= s);
}

pub proof fn lemma_count_true_update(s: Seq<bool>, i: int, b: bool)
    requires
        0 <= i < s.len(),
    ensures
        count_true(s.update(i, b)) == count_true(s) - (if s[i] {
            1int
        } else {
            0int
        }) + (if b {
            1int
        } else {
            0int
        }),
    decreases s.len(),
{
    if i == s.len() - 1 {
        assert(s.update(i, b).drop_last() =~= s.drop_last());
    } else {
        assert(s.update(i, b).drop_last() =~= s.drop_last().update(i, b));
        lemma_count_true_update(s.drop_last(), i, b);
    }
}

pub proof fn lemma_count_true_concat(s: Seq<bool>, t: Seq<bool>)
    ensures
        count_true(s + t) == count_true(s) + count_true(t),
    decreases t.len(),
{
    if t.len() == 0 {
        assert(s + t =~= s);
    } else {
        assert((s + t).drop_last() =~= s + t.drop_last());
        lemma_count_true_concat(s, t.drop_last());
    }
}

pub proof fn lemma_count_true_const(n: nat, b: bool)
    ensures
        count_true(Seq::new(n, |j: int| b)) == if b {
            n as int
        } else {
            0int
        },
    decreases n,
{
    if n > 0 {
        assert(Seq::new(n, |j: int| b).drop_last() =~= Seq::new((n - 1) as nat, |j: int| b));
        lemma_count_true_const((n - 1) as nat, b);
    }
}

/// The views of a sequence of byte-pair buffers.
pub open spec fn pairs_view(s: Seq<(Vec<u8>, Vec<u8>)>) -> Seq<(Seq<u8>, Seq<u8>)> {
    s.map_values(|p: (Vec<u8>, Vec<u8>)| (p.0@, p.1@))
}

/// The ids in `[0, n)` whose tombstone bit is clear, in increasing order.
pub open spec fn live_ids_prefix(tombs: Seq<bool>, n: int) -> Seq<u32>
    decreases n,
{
    if n <= 0 {
        Seq::empty()
    } else {
        live_ids_prefix(tombs, n - 1) + if tombs[n - 1] {
            Seq::empty()
        } else {
            seq![(n - 1) as u32]
        }
    }
}

/// Live ids are in range, live, strictly increasing, and no more than `n`.
pub proof fn lemma_live_ids_props(tombs: Seq<bool>, n: int)
    requires
        0 <= n <= tombs.len(),
        n <= u32::MAX,
    ensures
        live_ids_prefix(tombs, n).len() <= n,
        forall|k: int|
            0 <= k < live_ids_prefix(tombs, n).len() ==> (#[trigger] live_ids_prefix(tombs, n)[k])
                < n && !tombs[live_ids_prefix(tombs, n)[k] as int],
        forall|k1: int, k2: int|
            0 <= k1 < k2 < live_ids_prefix(tombs, n).len() ==> live_ids_prefix(tombs, n)[k1]
                < live_ids_prefix(tombs, n)[k2],
    decreases n,
{
    if n > 0 {
        lemma_live_ids_props(tombs, n - 1);
        let prev = live_ids_prefix(tombs, n - 1);
        let cur = live_ids_prefix(tombs, n);
        assert forall|k: int| 0 <= k < cur.len() implies (#[trigger] cur[k]) < n && !tombs[
            cur[k] as int
        ] by {
            if k < prev.len() {
                assert(cur[k] == prev[k]);
            } else {
                assert(cur[k] == (n - 1) as u32);
            }
        }
        assert forall|k1: int, k2: int| 0 <= k1 < k2 < cur.len() implies cur[k1] < cur[k2] by {
            if k2 < prev.len() {
                assert(cur[k1] == prev[k1] && cur[k2] == prev[k2]);
            } else {
                assert(cur[k2] == (n - 1) as u32);
                assert(cur[k1] == prev[k1]);
                assert((prev[k1] as int) < n - 1);
            }
        }
    }
}

/// The state of the slots after one record is placed at `id`: the array
/// grows as needed, slots materialized below `id` are zeroed tombstones, and
/// slot `id` takes the record.
pub open spec fn apply_entry(
    slots: Seq<Seq<u32>>,
    tombs: Seq<bool>,
    dim: int,
    id: int,
    del: bool,
    v: Seq<u32>,
) -> (Seq<Seq<u32>>, Seq<bool>) {
    let n = if slots.len() <= id {
        id + 1
    } else {
        slots.len() as int
    };
    (
        Seq::new(
            n as nat,
            |i: int|
                if i == id {
                    v
                } else if i < slots.len() {
                    slots[i]
                } else {
                    zero_slot(dim)
                },
        ),
        Seq::new(
            n as nat,
            |i: int|
                if i == id {
                    del
                } else if i < tombs.len() {
                    tombs[i]
                } else {
                    true
                },
        ),
    )
}

/// What loading a sequence of `(key, value)` pairs yields: the slots and
/// tombstones rebuilt record by record, or the first error met.
pub open spec fn spec_load(dim: int, entries: Seq<(Seq<u8>, Seq<u8>)>) -> Result<
    (Seq<Seq<u32>>, Seq<bool>),
    StorageError,
>
    decreases entries.len(),
{
    if entries.len() == 0 {
        Ok((Seq::empty(), Seq::empty()))
    } else {
        match spec_load(dim, entries.drop_last()) {
            Err(e) => Err(e),
            Ok(state) => {
                let entry = entries.last();
                match spec_decode_key(entry.0) {
                    None => Err(StorageError::KeyDecode),
                    Some(id) => if id == u32::MAX {
                        Err(StorageError::KeyDecode)
                    } else {
                        match spec_decode_record(entry.1) {
                            None => Err(StorageError::RecordDecode),
                            Some(rec) => if rec.1.len() != dim {
                                Err(StorageError::DimensionMismatch)
                            } else {
                                Ok(apply_entry(state.0, state.1, dim, id as int, rec.0, rec.1))
                            },
                        }
                    },
                }
            },
        }
    }
}

/// A load that fails on a prefix fails the same way on the whole.
pub proof fn lemma_spec_load_err(dim: int, entries: Seq<(Seq<u8>, Seq<u8>)>, m: int)
    requires
        0 <= m <= entries.len(),
        spec_load(dim, entries.take(m)) is Err,
    ensures
        spec_load(dim, entries) == spec_load(dim, entries.take(m)),
    decreases entries.len() - m,
{
    if m == entries.len() {
        assert(entries.take(m) =~= entries);
    } else {
        assert(entries.take(m + 1).drop_last() =~= entries.take(m));
        lemma_spec_load_err(dim, entries, m + 1);
    }
}

/// In-memory vector storage: chunked array, tombstone mask, tombstone
/// counter, and the queue of encoded records still to be written through.
///
/// Counting policy: `deleted_count` is the number of set bits in the mask,
/// padding slots included. Slots materialized below an inserted id are
/// tombstoned, persisted, and counted, and a load counts every tombstone it
/// rebuilds — gap slots of a foreign column included — so the counter is
/// the one reading that survives a reopen.
pub struct SimpleVectorStorage {
    dim: usize,
    distance: Distance,
    vectors: ChunkedVectors,
    deleted: DeletedMask,
    deleted_count: usize,
    pending: Vec<(Vec<u8>, Vec<u8>)>,
}

impl SimpleVectorStorage {
    /// Fixed vector length.
    pub closed spec fn spec_dim(self) -> int {
        self.dim as int
    }

    /// Metric chosen at open time.
    pub closed spec fn spec_distance(self) -> Distance {
        self.distance
    }

    /// All slots, tombstoned ones included.
    pub closed spec fn slots(self) -> Seq<Seq<u32>> {
        self.vectors@
    }

    /// The tombstone bits, index-aligned with the slots.
    pub closed spec fn tombs(self) -> Seq<bool> {
        mask_bits(self.deleted)
    }

    pub open spec fn spec_len(self) -> int {
        self.slots().len() as int
    }

    pub closed spec fn spec_deleted_count(self) -> int {
        self.deleted_count as int
    }

    /// Encoded records waiting to be written through to the column.
    pub closed spec fn pending_view(self) -> Seq<(Seq<u8>, Seq<u8>)> {
        pairs_view(self.pending@)
    }

    pub closed spec fn wf(self) -> bool {
        &&& self.vectors.wf()
        &&& self.vectors.spec_dim() == self.dim as int
        &&& 1 <= self.dim
        &&& self.tombs().len() == self.slots().len()
        &&& self.spec_len() <= u32::MAX
        &&& self.deleted_count == count_true(self.tombs())
        &&& forall|i: int|
            0 <= i < self.slots().len() ==> (#[trigger] self.slots()[i]).len() == self.dim
    }

    /// Facade view of the tombstone state: ids outside the array read as
    /// deleted.
    pub open spec fn spec_is_deleted(self, id: int) -> bool {
        !(0 <= id < self.spec_len()) || self.tombs()[id]
    }

    /// What a read of one id returns.
    pub open spec fn spec_get_vector(self, id: int) -> Option<Seq<u32>> {
        if self.spec_is_deleted(id) {
            None
        } else {
            Some(self.slots()[id])
        }
    }

    /// The record that mirrors slot `id`, as it is written to the column.
    pub open spec fn spec_record_entry(self, id: int) -> (Seq<u8>, Seq<u8>) {
        (key_bytes(id as u32), record_bytes(self.tombs()[id], self.slots()[id]))
    }

    /// The live ids, in increasing order.
    pub open spec fn spec_live_ids(self) -> Seq<u32> {
        live_ids_prefix(self.tombs(), self.spec_len())
    }

    /// The live vectors, in id order.
    pub open spec fn spec_live_vectors(self) -> Seq<Seq<u32>> {
        self.spec_live_ids().map_values(|id: u32| self.slots()[id as int])
    }

    /// Appends the encoded record of one slot to the pending writes.
    fn update_stored(&mut self, point_id: u32)
        requires
            old(self).wf(),
            (point_id as int) < old(self).spec_len(),
        ensures
            final(self).wf(),
            final(self).spec_dim() == old(self).spec_dim(),
            final(self).spec_distance() == old(self).spec_distance(),
            final(self).slots() == old(self).slots(),
            final(self).tombs() == old(self).tombs(),
            final(self).spec_deleted_count() == old(self).spec_deleted_count(),
            final(self).pending_view() == old(self).pending_view().push(
                old(self).spec_record_entry(point_id as int),
            ),
    {
        let vector = self.vectors.get(point_id);
        let deleted_flag = mask_get(&self.deleted, point_id as usize);
        let record = StoredRecord { deleted: deleted_flag, vector };
        let key = encode_point_id(point_id);
        let value = encode_record(&record);
        self.pending.push((key, value));
        proof {
            assert(self.pending_view() =~= old(self).pending_view().push(
                old(self).spec_record_entry(point_id as int),
            ));
        }
    }

    /// Hands over the queued writes; the caller must put each pair to the
    /// durable column, in order, before reporting the mutations as done.
    pub fn take_pending_writes(&mut self) -> (r: Vec<(Vec<u8>, Vec<u8>)>)
        requires
            old(self).wf(),
        ensures
            final(self).wf(),
            pairs_view(r@) == old(self).pending_view(),
            final(self).pending_view() == Seq::<(Seq<u8>, Seq<u8>)>::empty(),
            final(self).spec_dim() == old(self).spec_dim(),
            final(self).spec_distance() == old(self).spec_distance(),
            final(self).slots() == old(self).slots(),
            final(self).tombs() == old(self).tombs(),
            final(self).spec_deleted_count() == old(self).spec_deleted_count(),
    {
        let mut out: Vec<(Vec<u8>, Vec<u8>)> = Vec::new();
        core::mem::swap(&mut out, &mut self.pending);
        proof {
            assert(self.pending_view() =~= Seq::<(Seq<u8>, Seq<u8>)>::empty());
        }
        out
    }

    pub fn vector_dim(&self) -> (r: usize)
        ensures
            r == self.spec_dim(),
    {
        self.dim
    }

    pub fn total_vector_count(&self) -> (r: usize)
        ensures
            r == self.spec_len(),
    {
        self.vectors.len()
    }

    pub fn deleted_count(&self) -> (r: usize)
        ensures
            r == self.spec_deleted_count(),
    {
        self.deleted_count
    }

    /// Number of live vectors.
    pub fn vector_count(&self) -> (r: usize)
        requires
            self.wf(),
        ensures
            r == self.spec_len() - self.spec_deleted_count(),
    {
        proof {
            lemma_count_true_bound(self.tombs());
        }
        self.vectors.len() - self.deleted_count
    }

    /// Tombstone read through the facade: an id past the end reads as
    /// deleted.
    pub fn is_deleted(&self, key: u32) -> (r: bool)
        requires
            self.wf(),
        ensures
            r == self.spec_is_deleted(key as int),
    {
        if (key as usize) < self.vectors.len() {
            mask_get(&self.deleted, key as usize)
        } else {
            true
        }
    }

    /// A fresh copy of one vector, or nothing when the id is out of range or
    /// tombstoned.
    pub fn get_vector(&self, key: u32) -> (r: Option<Vec<u32>>)
        requires
            self.wf(),
        ensures
            match r {
                Some(v) => self.spec_get_vector(key as int) == Some(v@) && v@.len()
                    == self.spec_dim(),
                None => self.spec_get_vector(key as int) is None,
            },
    {
        if key as usize >= self.vectors.len() {
            return None;
        }
        if mask_get(&self.deleted, key as usize) {
            return None;
        }
        Some(self.vectors.get(key))
    }

    /// Appends a live vector, assigns it the next id, and queues its record.
    pub fn put_vector(&mut self, vector: Vec<u32>) -> (id: u32)
        requires
            old(self).wf(),
            vector@.len() == old(self).spec_dim(),
            old(self).spec_len() < u32::MAX,
        ensures
            final(self).wf(),
            final(self).spec_dim() == old(self).spec_dim(),
            final(self).spec_distance() == old(self).spec_distance(),
            id as int == old(self).spec_len(),
            final(self).slots() == old(self).slots().push(vector@),
            final(self).tombs() == old(self).tombs().push(false),
            final(self).spec_deleted_count() == old(self).spec_deleted_count(),
            !final(self).spec_is_deleted(id as int),
            final(self).pending_view() == old(self).pending_view().push(
                (key_bytes(id), record_bytes(false, vector@)),
            ),
    {
        let id = self.vectors.push(&vector);
        mask_push(&mut self.deleted, false);
        proof {
            lemma_count_true_push(old(self).tombs(), false);
        }
        self.update_stored(id);
        id
    }

    /// Tombstones one id: a no-op past the end, otherwise the bit is set,
    /// the counter moves only on the live-to-deleted edge, and the slot's
    /// record is queued.
    pub fn delete(&mut self, key: u32)
        requires
            old(self).wf(),
        ensures
            final(self).wf(),
            final(self).spec_dim() == old(self).spec_dim(),
            final(self).spec_distance() == old(self).spec_distance(),
            final(self).slots() == old(self).slots(),
            (key as int) >= old(self).spec_len() ==> {
                &&& final(self).tombs() == old(self).tombs()
                &&& final(self).spec_deleted_count() == old(self).spec_deleted_count()
                &&& final(self).pending_view() == old(self).pending_view()
            },
            (key as int) < old(self).spec_len() ==> final(self).spec_is_deleted(key as int),
            (key as int) < old(self).spec_len() ==> {
                &&& final(self).tombs() == old(self).tombs().update(key as int, true)
                &&& final(self).spec_deleted_count() == old(self).spec_deleted_count() + (
                if old(self).tombs()[key as int] {
                    0int
                } else {
                    1int
                })
                &&& final(self).pending_view() == old(self).pending_view().push(
                    (key_bytes(key), record_bytes(true, old(self).slots()[key as int])),
                )
            },
    {
        if key as usize >= self.vectors.len() {
            return ;
        }
        if !mask_get(&self.deleted, key as usize) {
            proof {
                lemma_count_true_update(self.tombs(), key as int, true);
                lemma_count_true_bound(self.tombs().update(key as int, true));
            }
            self.deleted_count = self.deleted_count + 1;
        }
        proof {
            lemma_count_true_update(self.tombs(), key as int, true);
        }
        mask_set(&mut self.deleted, key as usize, true);
        self.update_stored(key);
    }

    /// The live ids in increasing order.
    pub fn iter_ids(&self) -> (r: Vec<u32>)
        requires
            self.wf(),
        ensures
            r@ == self.spec_live_ids(),
    {
        let mut out: Vec<u32> = Vec::new();
        let len = self.vectors.len();
        let mut i: usize = 0;
        while i < len
            invariant
                self.wf(),
                i <= len,
                len == self.spec_len(),
                out@ == live_ids_prefix(self.tombs(), i as int),
            decreases len - i,
        {
            if !mask_get(&self.deleted, i) {
                out.push(i as u32);
                proof {
                    assert(out@ =~= live_ids_prefix(self.tombs(), i + 1 as int));
                }
            } else {
                proof {
                    assert(out@ =~= live_ids_prefix(self.tombs(), i + 1 as int));
                }
            }
            i = i + 1;
        }
        out
    }

    /// Places one record at `key`, growing the array with zeroed tombstones
    /// as needed; the pending writes are not touched.
    fn place_slot(&mut self, key: u32, del: bool, vector: &Vec<u32>)
        requires
            old(self).wf(),
            vector@.len() == old(self).spec_dim(),
            (key as int) < u32::MAX,
        ensures
            final(self).wf(),
            final(self).spec_dim() == old(self).spec_dim(),
            final(self).spec_distance() == old(self).spec_distance(),
            final(self).pending_view() == old(self).pending_view(),
            (final(self).slots(), final(self).tombs()) == apply_entry(
                old(self).slots(),
                old(self).tombs(),
                old(self).spec_dim(),
                key as int,
                del,
                vector@,
            ),
            old(self).spec_len() <= key as int ==> final(self).spec_deleted_count() == old(
                self,
            ).spec_deleted_count() + (key as int - old(self).spec_len()) + (if del {
                1int
            } else {
                0int
            }),
            (key as int) < old(self).spec_len() ==> final(self).spec_deleted_count() == old(
                self,
            ).spec_deleted_count() - (if old(self).tombs()[key as int] {
                1int
            } else {
                0int
            }) + (if del {
                1int
            } else {
                0int
            }),
    {
        let old_len = self.vectors.len();
        self.vectors.insert(key, vector);
        if old_len <= key as usize {
            mask_resize(&mut self.deleted, key as usize + 1, true);
            proof {
                assert(self.tombs() =~= old(self).tombs() + Seq::new(
                    (key as int + 1 - old_len) as nat,
                    |j: int| true,
                ));
                lemma_count_true_concat(
                    old(self).tombs(),
                    Seq::new((key as int + 1 - old_len) as nat, |j: int| true),
                );
                lemma_count_true_const((key as int + 1 - old_len) as nat, true);
                lemma_count_true_bound(old(self).tombs());
            }
            self.deleted_count = self.deleted_count + (key as usize + 1 - old_len);
            proof {
                lemma_count_true_update(self.tombs(), key as int, del);
            }
            if !del {
                self.deleted_count = self.deleted_count - 1;
            }
            mask_set(&mut self.deleted, key as usize, del);
        } else {
            let was = mask_get(&self.deleted, key as usize);
            proof {
                lemma_count_true_update(self.tombs(), key as int, del);
                lemma_count_true_bound(self.tombs().update(key as int, del));
            }
            if was && !del {
                self.deleted_count = self.deleted_count - 1;
            }
            if !was && del {
                self.deleted_count = self.deleted_count + 1;
            }
            mask_set(&mut self.deleted, key as usize, del);
        }
        proof {
            let expected = apply_entry(
                old(self).slots(),
                old(self).tombs(),
                old(self).spec_dim(),
                key as int,
                del,
                vector@,
            );
            assert(self.slots() =~= expected.0);
            assert(self.tombs() =~= expected.1);
        }
    }

    /// Places a live vector at `key`, growing the array with zeroed
    /// tombstones as needed, and queues the records of every slot the call
    /// materialized or changed.
    pub fn insert_vector(&mut self, key: u32, vector: Vec<u32>)
        requires
            old(self).wf(),
            vector@.len() == old(self).spec_dim(),
            (key as int) < u32::MAX,
        ensures
            final(self).wf(),
            final(self).spec_dim() == old(self).spec_dim(),
            final(self).spec_distance() == old(self).spec_distance(),
            (final(self).slots(), final(self).tombs()) == apply_entry(
                old(self).slots(),
                old(self).tombs(),
                old(self).spec_dim(),
                key as int,
                false,
                vector@,
            ),
            old(self).spec_len() <= key as int ==> final(self).spec_deleted_count() == old(
                self,
            ).spec_deleted_count() + (key as int - old(self).spec_len()),
            (key as int) < old(self).spec_len() ==> final(self).spec_deleted_count() == old(
                self,
            ).spec_deleted_count() - (if old(self).tombs()[key as int] {
                1int
            } else {
                0int
            }),
            !final(self).spec_is_deleted(key as int),
            old(self).spec_len() <= key as int ==> final(self).pending_view() == old(self).pending_view() + Seq::new(
                (key as int + 1 - old(self).spec_len()) as nat,
                |j: int| final(self).spec_record_entry(old(self).spec_len() + j),
            ),
            (key as int) < old(self).spec_len() ==> final(self).pending_view() == old(self).pending_view().push(final(self).spec_record_entry(key as int)),
    {
        let old_len = self.vectors.len();
        self.place_slot(key, false, &vector);
        let ghost placed_slots = self.slots();
        let ghost placed_tombs = self.tombs();
        let ghost placed_count = self.spec_deleted_count();
        if old_len <= key as usize {
            let mut i: usize = old_len;
            while i <= key as usize
                invariant
                    self.wf(),
                    old_len <= i <= key as usize + 1,
                    old_len == old(self).spec_len(),
                    (key as int) < self.spec_len() <= u32::MAX,
                    self.spec_dim() == old(self).spec_dim(),
                    self.spec_distance() == old(self).spec_distance(),
                    self.slots() == placed_slots,
                    self.tombs() == placed_tombs,
                    self.spec_deleted_count() == placed_count,
                    self.pending_view() == old(self).pending_view() + Seq::new(
                        (i - old_len) as nat,
                        |j: int| self.spec_record_entry(old_len + j),
                    ),
                decreases key as int + 1 - i,
            {
                self.update_stored(i as u32);
                proof {
                    assert(self.pending_view() =~= old(self).pending_view() + Seq::new(
                        (i + 1 - old_len) as nat,
                        |j: int| self.spec_record_entry(old_len + j),
                    ));
                }
                i = i + 1;
            }
            proof {
                assert(self.pending_view() =~= old(self).pending_view() + Seq::new(
                    (key as int + 1 - old(self).spec_len()) as nat,
                    |j: int| self.spec_record_entry(old(self).spec_len() + j),
                ));
            }
        } else {
            self.update_stored(key);
        }
    }
}

/// Opens a storage over the `(key, value)` pairs scanned from its durable
/// column, rebuilding the slots, the tombstones and the tombstone count;
/// decode and dimension failures abort the open.
pub fn open_simple_vector_storage(
    dim: usize,
    distance: Distance,
    entries: Vec<(Vec<u8>, Vec<u8>)>,
) -> (r: Result<SimpleVectorStorage, StorageError>)
    requires
        1 <= dim,
    ensures
        match r {
            Ok(s) => {
                &&& s.wf()
                &&& s.spec_dim() == dim as int
                &&& s.spec_distance() == distance
                &&& s.pending_view() == Seq::<(Seq<u8>, Seq<u8>)>::empty()
                &&& s.spec_deleted_count() == count_true(s.tombs())
                &&& s.tombs().len() == s.slots().len()
                &&& spec_load(dim as int, pairs_view(entries@)) == Ok::<(Seq<Seq<u32>>, Seq<bool>), StorageError>((s.slots(), s.tombs()))
            },
            Err(e) => spec_load(dim as int, pairs_view(entries@)) == Err::<
                (Seq<Seq<u32>>, Seq<bool>),
                StorageError,
            >(e),
        },
{
    let mut storage = SimpleVectorStorage {
        dim,
        distance,
        vectors: ChunkedVectors::new(dim),
        deleted: mask_new(),
        deleted_count: 0,
        pending: Vec::new(),
    };
    proof {
        assert(storage.tombs() =~= Seq::<bool>::empty());
        assert(storage.pending_view() =~= Seq::<(Seq<u8>, Seq<u8>)>::empty());
        assert(pairs_view(entries@).take(0) =~= Seq::<(Seq<u8>, Seq<u8>)>::empty());
    }
    let ghost all = pairs_view(entries@);
    let mut j: usize = 0;
    while j < entries.len()
        invariant
            storage.wf(),
            j <= entries@.len(),
            storage.spec_dim() == dim as int,
            1 <= dim,
            storage.spec_distance() == distance,
            storage.pending_view() == Seq::<(Seq<u8>, Seq<u8>)>::empty(),
            all == pairs_view(entries@),
            spec_load(dim as int, all.take(j as int)) == Ok::<
                (Seq<Seq<u32>>, Seq<bool>),
                StorageError,
            >((storage.slots(), storage.tombs())),
        decreases entries@.len() - j,
    {
        proof {
            assert(all.take(j + 1 as int).drop_last() =~= all.take(j as int));
            assert(all[j as int] == (entries@[j as int].0@, entries@[j as int].1@));
        }
        let pair = &entries[j];
        let id_opt = decode_point_id(&pair.0);
        match id_opt {
            None => {
                proof {
                    lemma_spec_load_err(dim as int, all, j + 1);
                }
                return Err(StorageError::KeyDecode);
            },
            Some(id) => {
                if id == u32::MAX {
                    proof {
                        lemma_spec_load_err(dim as int, all, j + 1);
                    }
                    return Err(StorageError::KeyDecode);
                }
                let rec_opt = decode_record(&pair.1);
                match rec_opt {
                    None => {
                        proof {
                            lemma_spec_load_err(dim as int, all, j + 1);
                        }
                        return Err(StorageError::RecordDecode);
                    },
                    Some(record) => {
                        if record.vector.len() != dim {
                            proof {
                                lemma_spec_load_err(dim as int, all, j + 1);
                            }
                            return Err(StorageError::DimensionMismatch);
                        }
                        storage.place_slot(id, record.deleted, &record.vector);
                    },
                }
            },
        }
        j = j + 1;
    }
    proof {
        assert(all.take(entries@.len() as int) =~= all);
    }
    Ok(storage)
}

impl SimpleVectorStorage {
    /// Appends every live vector of another storage, in id order, queueing
    /// one record per new slot; the transfer polls the stop flag before each
    /// point and aborts with a cancellation error when it is raised. The
    /// result is the id range the transfer filled.
    pub fn update_from(&mut self, other: &SimpleVectorStorage, stopped: &AtomicBool) -> (r:
        Result<(u32, u32), StorageError>)
        requires
            old(self).wf(),
            other.wf(),
            other.spec_dim() == old(self).spec_dim(),
            old(self).spec_len() + other.spec_live_ids().len() <= u32::MAX,
        ensures
            final(self).wf(),
            final(self).spec_dim() == old(self).spec_dim(),
            final(self).spec_distance() == old(self).spec_distance(),
            final(self).spec_deleted_count() == old(self).spec_deleted_count(),
            other.spec_live_ids().len() == 0 ==> r is Ok,
            match r {
                Ok(range) => {
                    &&& range.0 as int == old(self).spec_len()
                    &&& range.1 as int == final(self).spec_len()
                    &&& final(self).slots() == old(self).slots() + other.spec_live_vectors()
                    &&& final(self).tombs() == old(self).tombs() + Seq::new(
                        other.spec_live_vectors().len(),
                        |j: int| false,
                    )
                    &&& final(self).pending_view() == old(self).pending_view() + Seq::new(
                        other.spec_live_vectors().len(),
                        |j: int|
                            (
                                key_bytes((old(self).spec_len() + j) as u32),
                                record_bytes(false, other.spec_live_vectors()[j]),
                            ),
                    )
                },
                Err(e) => {
                    &&& e == StorageError::Cancelled
                    &&& exists|k: int|
                        {
                            &&& 0 <= k <= other.spec_live_vectors().len()
                            &&& final(self).slots() == old(self).slots()
                                + other.spec_live_vectors().take(k)
                            &&& final(self).tombs() == old(self).tombs() + Seq::new(
                                k as nat,
                                |j: int| false,
                            )
                            &&& final(self).pending_view() == old(self).pending_view() + Seq::new(
                                k as nat,
                                |j: int|
                                    (
                                        key_bytes((old(self).spec_len() + j) as u32),
                                        record_bytes(false, other.spec_live_vectors()[j]),
                                    ),
                            )
                        }
                },
            },
    {
        let ids = other.iter_ids();
        proof {
            lemma_live_ids_props(other.tombs(), other.spec_len());
        }
        let start = self.vectors.len() as u32;
        let ghost lv = other.spec_live_vectors();
        let mut j: usize = 0;
        while j < ids.len()
            invariant
                self.wf(),
                old(self).wf(),
                other.wf(),
                j <= ids@.len(),
                ids@ == other.spec_live_ids(),
                lv == other.spec_live_vectors(),
                forall|k: int|
                    0 <= k < ids@.len() ==> (#[trigger] ids@[k]) < other.spec_len()
                        && !other.tombs()[ids@[k] as int],
                self.spec_dim() == old(self).spec_dim(),
                other.spec_dim() == old(self).spec_dim(),
                self.spec_distance() == old(self).spec_distance(),
                self.spec_deleted_count() == old(self).spec_deleted_count(),
                old(self).spec_len() + ids@.len() <= u32::MAX,
                self.slots() == old(self).slots() + lv.take(j as int),
                self.tombs() == old(self).tombs() + Seq::new(j as nat, |t: int| false),
                self.pending_view() == old(self).pending_view() + Seq::new(
                    j as nat,
                    |t: int|
                        (
                            key_bytes((old(self).spec_len() + t) as u32),
                            record_bytes(false, lv[t]),
                        ),
                ),
            decreases ids@.len() - j,
        {
            if stopped.load(Ordering::Relaxed) {
                proof {
                    let k = j as int;
                    assert(0 <= k <= lv.len() && self.slots() == old(self).slots() + lv.take(k)
                        && self.tombs() == old(self).tombs() + Seq::new(k as nat, |t: int| false)
                        && self.pending_view() == old(self).pending_view() + Seq::new(
                        k as nat,
                        |t: int|
                            (
                                key_bytes((old(self).spec_len() + t) as u32),
                                record_bytes(false, lv[t]),
                            ),
                    ));
                }
                return Err(StorageError::Cancelled);
            }
            let id = ids[j];
            let vector = other.vectors.get(id);
            proof {
                assert(vector@ == lv[j as int]);
            }
            let ghost pre_tombs = self.tombs();
            mask_push(&mut self.deleted, false);
            proof {
                lemma_count_true_push(pre_tombs, false);
                assert(self.tombs() == pre_tombs.push(false));
            }
            let new_id = self.vectors.push(&vector);
            proof {
                assert(self.slots() =~= old(self).slots() + lv.take(j + 1 as int));
                assert(self.tombs() =~= old(self).tombs() + Seq::new(
                    (j + 1) as nat,
                    |t: int| false,
                ));
                assert(other.slots()[id as int].len() == other.spec_dim());
                assert forall|i: int| 0 <= i < self.slots().len() implies (#[trigger] self.slots()[
                    i
                ]).len() == self.spec_dim() by {
                    if i < old(self).spec_len() {
                        assert(old(self).slots()[i].len() == old(self).spec_dim());
                    } else {
                        assert(self.slots()[i] == lv[i - old(self).spec_len()]);
                        let k = i - old(self).spec_len();
                        assert(lv[k] == other.slots()[other.spec_live_ids()[k] as int]);
                        assert(other.slots()[other.spec_live_ids()[k] as int].len()
                            == other.spec_dim());
                    }
                }
                assert(self.wf());
            }
            self.update_stored(new_id);
            proof {
                assert(self.slots() =~= old(self).slots() + lv.take(j + 1 as int));
                assert(self.tombs() =~= old(self).tombs() + Seq::new(
                    (j + 1) as nat,
                    |t: int| false,
                ));
                assert(self.pending_view() =~= old(self).pending_view() + Seq::new(
                    (j + 1) as nat,
                    |t: int|
                        (
                            key_bytes((old(self).spec_len() + t) as u32),
                            record_bytes(false, lv[t]),
                        ),
                ));
            }
            j = j + 1;
        }
        let end = self.vectors.len() as u32;
        proof {
            assert(lv.take(lv.len() as int) =~= lv);
        }
        Ok((start, end))
    }
}


impl SimpleVectorStorage {
    /// Live and in range: what a raw scorer checks before scoring one id.
    pub fn check_point(&self, point: u32) -> (r: bool)
        requires
            self.wf(),
        ensures
            r == !self.spec_is_deleted(point as int),
    {
        (point as usize) < self.vectors.len() && !mask_get(&self.deleted, point as usize)
    }
}

/// The ids a raw scorer writes scores for: the given points in order, with
/// tombstoned ones skipped, stopping once `cap` ids are taken.
pub open spec fn plan_prefix(points: Seq<u32>, tombs: Seq<bool>, n: int, cap: int) -> Seq<u32>
    decreases n,
{
    if n <= 0 {
        Seq::empty()
    } else {
        let prev = plan_prefix(points, tombs, n - 1, cap);
        if !tombs[points[n - 1] as int] && prev.len() < cap {
            prev.push(points[n - 1])
        } else {
            prev
        }
    }
}

/// Once the plan is full, later points change nothing.
proof fn lemma_plan_prefix_saturates(points: Seq<u32>, tombs: Seq<bool>, n0: int, m: int, cap: int)
    requires
        0 <= n0 <= m,
        plan_prefix(points, tombs, n0, cap).len() >= cap,
    ensures
        plan_prefix(points, tombs, m, cap) == plan_prefix(points, tombs, n0, cap),
    decreases m - n0,
{
    if m > n0 {
        lemma_plan_prefix_saturates(points, tombs, n0, m - 1, cap);
    }
}

impl SimpleVectorStorage {
    /// Which points a raw scorer scores into an output buffer of `capacity`
    /// entries: the given points in order, tombstoned ones skipped, cut off
    /// once the buffer is full. The caller computes the score of each id in
    /// the result, in order. Only the points reached while the buffer is
    /// not yet full are read, so only those need to be in range.
    pub fn score_points_plan(&self, points: &Vec<u32>, capacity: usize) -> (r: Vec<u32>)
        requires
            self.wf(),
            forall|k: int|
                0 <= k < points@.len() && plan_prefix(points@, self.tombs(), k, capacity as int).len()
                    < capacity ==> (#[trigger] points@[k]) < self.spec_len(),
        ensures
            r@ == plan_prefix(points@, self.tombs(), points@.len() as int, capacity as int),
            forall|k: int| 0 <= k < r@.len() ==> !self.spec_is_deleted(#[trigger] r@[k] as int),
            r@.len() <= capacity,
    {
        let mut out: Vec<u32> = Vec::new();
        let mut i: usize = 0;
        while i < points.len()
            invariant
                self.wf(),
                i <= points@.len(),
                forall|k: int|
                    0 <= k < points@.len() && plan_prefix(
                        points@,
                        self.tombs(),
                        k,
                        capacity as int,
                    ).len() < capacity ==> (#[trigger] points@[k]) < self.spec_len(),
                out@ == plan_prefix(points@, self.tombs(), i as int, capacity as int),
                forall|k: int|
                    0 <= k < out@.len() ==> !self.spec_is_deleted(#[trigger] out@[k] as int),
                out@.len() <= capacity,
            decreases points@.len() - i,
        {
            if out.len() == capacity {
                proof {
                    lemma_plan_prefix_saturates(
                        points@,
                        self.tombs(),
                        i as int,
                        points@.len() as int,
                        capacity as int,
                    );
                }
                return out;
            }
            let id = points[i];
            proof {
                assert(points@[i as int] < self.spec_len());
            }
            if !mask_get(&self.deleted, id as usize) {
                out.push(id);
            }
            i = i + 1;
        }
        out
    }
}

impl SimpleVectorStorage {
    /// The raw bits of one slot, tombstoned or not: what the quantizer reads
    /// when it is built over every slot.
    pub fn stored_vector(&self, key: u32) -> (r: Vec<u32>)
        requires
            self.wf(),
            (key as int) < self.spec_len(),
        ensures
            r@ == self.slots()[key as int],
            r@.len() == self.spec_dim(),
    {
        self.vectors.get(key)
    }
}

/// A well-formed storage keeps its tombstone mask aligned with its slots,
/// within the 32-bit id space.
pub proof fn lemma_wf_alignment(s: SimpleVectorStorage)
    requires
        s.wf(),
    ensures
        s.tombs().len() == s.slots().len(),
        s.spec_len() <= u32::MAX,
        forall|i: int| 0 <= i < s.slots().len() ==> (#[trigger] s.slots()[i]).len()
            == s.spec_dim(),
{
}

/// After any sequence of mutations the counters balance: the live count and
/// the tombstone count always add up to the total slot count.
pub proof fn lemma_counts_balance(s: SimpleVectorStorage)
    requires
        s.wf(),
    ensures
        0 <= s.spec_deleted_count() <= s.spec_len(),
        (s.spec_len() - s.spec_deleted_count()) + s.spec_deleted_count() == s.spec_len(),
{
    lemma_count_true_bound(s.tombs());
}

/// An id reads as deleted exactly when no vector comes back for it.
pub proof fn lemma_deleted_iff_absent(s: SimpleVectorStorage, id: int)
    requires
        s.wf(),
    ensures
        s.spec_is_deleted(id) == (s.spec_get_vector(id) is None),
{
}

/// A vector put at a fresh id is read back bit for bit: the hypotheses are
/// exactly what `put_vector` ensures of the new state.
pub proof fn lemma_put_then_get(
    before: SimpleVectorStorage,
    after: SimpleVectorStorage,
    vector: Seq<u32>,
    id: int,
)
    requires
        after.slots() == before.slots().push(vector),
        after.tombs() == before.tombs().push(false),
        before.tombs().len() == before.slots().len(),
        id == before.slots().len(),
    ensures
        after.spec_get_vector(id) == Some(vector),
        !after.spec_is_deleted(id),
{
}

/// Deleting a tombstoned id again moves nothing: the mask and the counter
/// delta that `delete` ensures are both unchanged.
pub proof fn lemma_delete_idempotent(s: SimpleVectorStorage, id: int)
    requires
        s.wf(),
        0 <= id < s.spec_len(),
        s.spec_is_deleted(id),
    ensures
        s.tombs().update(id, true) == s.tombs(),
        s.spec_deleted_count() + (if s.tombs()[id] {
            0int
        } else {
            1int
        }) == s.spec_deleted_count(),
{
    assert(s.tombs().update(id, true) =~= s.tombs());
}

/// Every id that `iter_ids` yields is in range and live, and the sequence
/// is strictly increasing.
pub proof fn lemma_live_ids_live(s: SimpleVectorStorage)
    requires
        s.wf(),
    ensures
        forall|k: int|
            0 <= k < s.spec_live_ids().len() ==> !s.spec_is_deleted(
                #[trigger] s.spec_live_ids()[k] as int,
            ),
        forall|k1: int, k2: int|
            0 <= k1 < k2 < s.spec_live_ids().len() ==> s.spec_live_ids()[k1]
                < s.spec_live_ids()[k2],
{
    lemma_live_ids_props(s.tombs(), s.spec_len());
}

/// The records of every slot, in id order: what the durable column holds
/// once all pending writes have been applied.
pub open spec fn spec_all_records(s: SimpleVectorStorage) -> Seq<(Seq<u8>, Seq<u8>)> {
    Seq::new(s.spec_len() as nat, |id: int| s.spec_record_entry(id))
}

/// One past the greatest id in the sequence; zero when it is empty.
pub open spec fn ids_extent(ids: Seq<u32>) -> int
    decreases ids.len(),
{
    if ids.len() == 0 {
        0
    } else {
        let rest = ids_extent(ids.drop_last());
        if ids.last() as int + 1 > rest {
            ids.last() as int + 1
        } else {
            rest
        }
    }
}

proof fn lemma_ids_extent_bounds(ids: Seq<u32>, bound: int)
    requires
        0 <= bound,
        forall|j: int| 0 <= j < ids.len() ==> (#[trigger] ids[j]) < bound,
    ensures
        0 <= ids_extent(ids) <= bound,
        forall|j: int| 0 <= j < ids.len() ==> (#[trigger] ids[j]) < ids_extent(ids),
    decreases ids.len(),
{
    if ids.len() > 0 {
        let ids0 = ids.drop_last();
        assert forall|j: int| 0 <= j < ids0.len() implies (#[trigger] ids0[j]) < bound by {
            assert(ids0[j] == ids[j]);
        }
        lemma_ids_extent_bounds(ids0, bound);
        assert forall|j: int| 0 <= j < ids.len() implies (#[trigger] ids[j]) < ids_extent(ids) by {
            if j < ids.len() - 1 {
                assert(ids0[j] == ids[j]);
            }
        }
    }
}

/// The state rebuilt once the records of `ids` have been placed, in any
/// order: covered slots carry the storage's record, the rest are zeroed
/// tombstones.
pub open spec fn covered_state(s: SimpleVectorStorage, ids: Seq<u32>) -> (Seq<Seq<u32>>, Seq<
    bool,
>) {
    let n = ids_extent(ids);
    (
        Seq::new(
            n as nat,
            |i: int|
                if ids.contains(i as u32) {
                    s.slots()[i]
                } else {
                    zero_slot(s.spec_dim())
                },
        ),
        Seq::new(
            n as nat,
            |i: int|
                if ids.contains(i as u32) {
                    s.tombs()[i]
                } else {
                    true
                },
        ),
    )
}

proof fn lemma_reload_covered(
    s: SimpleVectorStorage,
    entries: Seq<(Seq<u8>, Seq<u8>)>,
    ids: Seq<u32>,
)
    requires
        s.wf(),
        entries.len() == ids.len(),
        forall|j: int| 0 <= j < ids.len() ==> (#[trigger] ids[j]) < s.spec_len(),
        forall|j: int|
            0 <= j < ids.len() ==> #[trigger] entries[j] == s.spec_record_entry(ids[j] as int),
    ensures
        spec_load(s.spec_dim(), entries) == Ok::<(Seq<Seq<u32>>, Seq<bool>), StorageError>(
            covered_state(s, ids),
        ),
    decreases entries.len(),
{
    if entries.len() == 0 {
        assert(covered_state(s, ids).0 =~= Seq::<Seq<u32>>::empty());
        assert(covered_state(s, ids).1 =~= Seq::<bool>::empty());
    } else {
        let ids0 = ids.drop_last();
        let entries0 = entries.drop_last();
        let k = ids.last() as int;
        assert forall|j: int| 0 <= j < ids0.len() implies (#[trigger] ids0[j]) < s.spec_len()
            && entries0[j] == s.spec_record_entry(ids0[j] as int) by {
            assert(ids0[j] == ids[j]);
            assert(entries0[j] == entries[j]);
        }
        lemma_reload_covered(s, entries0, ids0);
        lemma_ids_extent_bounds(ids0, s.spec_len());
        let prev = covered_state(s, ids0);
        assert(entries.last() == s.spec_record_entry(k));
        lemma_key_round_trip(k as u32);
        assert(s.slots()[k].len() == s.spec_dim());
        lemma_record_round_trip(s.tombs()[k], s.slots()[k]);
        let applied = apply_entry(prev.0, prev.1, s.spec_dim(), k, s.tombs()[k], s.slots()[k]);
        let cur = covered_state(s, ids);
        assert(applied.0.len() == ids_extent(ids));
        assert forall|i: int| 0 <= i < ids_extent(ids) implies applied.0[i] == cur.0[i]
            && applied.1[i] == cur.1[i] by {
            if i == k {
                assert(ids[ids.len() - 1] == (i as u32));
                assert(ids.contains(i as u32));
            } else {
                if ids0.contains(i as u32) {
                    let j = choose|j: int| 0 <= j < ids0.len() && ids0[j] == (i as u32);
                    assert(ids[j] == (i as u32));
                    assert(ids.contains(i as u32));
                    assert((i as u32) < ids_extent(ids0));
                } else if ids.contains(i as u32) {
                    let j = choose|j: int| 0 <= j < ids.len() && ids[j] == (i as u32);
                    assert(ids0[j] == ids[j]);
                    assert(ids0.contains(i as u32));
                    assert(false);
                }
            }
        }
        assert(applied.0 =~= cur.0);
        assert(applied.1 =~= cur.1);
    }
}

/// The column's scan order does not matter: loading one record per slot of
/// the storage, in any order in which every id appears with its stored
/// record, rebuilds the same model.
pub proof fn lemma_reload_scan_order(
    s: SimpleVectorStorage,
    entries: Seq<(Seq<u8>, Seq<u8>)>,
    ids: Seq<u32>,
)
    requires
        s.wf(),
        entries.len() == ids.len(),
        forall|j: int| 0 <= j < ids.len() ==> (#[trigger] ids[j]) < s.spec_len(),
        forall|j: int|
            0 <= j < ids.len() ==> #[trigger] entries[j] == s.spec_record_entry(ids[j] as int),
        forall|i: int| 0 <= i < s.spec_len() ==> ids.contains(#[trigger] (i as u32)),
    ensures
        spec_load(s.spec_dim(), entries) == Ok::<(Seq<Seq<u32>>, Seq<bool>), StorageError>(
            (s.slots(), s.tombs()),
        ),
{
    lemma_reload_covered(s, entries, ids);
    lemma_ids_extent_bounds(ids, s.spec_len());
    if s.spec_len() > 0 {
        assert(ids.contains(((s.spec_len() - 1) as u32)));
        let j = choose|j: int| 0 <= j < ids.len() && ids[j] == ((s.spec_len() - 1) as u32);
        assert((ids[j] as int) < ids_extent(ids));
        assert(ids_extent(ids) == s.spec_len());
    } else {
        assert(ids_extent(ids) == 0);
    }
    let cur = covered_state(s, ids);
    assert(cur.0 =~= s.slots());
    assert(cur.1 =~= s.tombs());
}

/// Reopening a storage from the records of every slot rebuilds the same
/// model: the same length, the same tombstones, the same vector bits.
pub proof fn lemma_reload_round_trip(s: SimpleVectorStorage)
    requires
        s.wf(),
    ensures
        spec_load(s.spec_dim(), spec_all_records(s)) == Ok::<
            (Seq<Seq<u32>>, Seq<bool>),
            StorageError,
        >((s.slots(), s.tombs())),
{
    let ids = Seq::new(s.spec_len() as nat, |i: int| i as u32);
    assert forall|i: int| 0 <= i < s.spec_len() implies ids.contains(#[trigger] (i as u32)) by {
        assert(ids[i] == (i as u32));
    }
    lemma_reload_scan_order(s, spec_all_records(s), ids);
}


} // verus!
