//! Stable byte codec for point keys and stored records.
//!
//! A key is the point id in little-endian 4-byte form. A record value is one
//! flag byte (`1` deleted, `0` live), a little-endian 8-byte element count,
//! and the elements in little-endian 4-byte form. The format is fixed here
//! once and for all: reloading a storage depends on it bit for bit.

use vstd::prelude::*;

verus! {

/// A record as it is mirrored into the durable column: tombstone flag and
/// the stored element bit patterns.
pub struct StoredRecord {
    pub deleted: bool,
    pub vector: Vec<u32>,
}

/// Little-endian bytes of a 32-bit value.
pub open spec fn le32_bytes(v: u32) -> Seq<u8> {
    seq![
        (v & 0xff) as u8,
        ((v >> 8) & 0xff) as u8,
        ((v >> 16) & 0xff) as u8,
        ((v >> 24) & 0xff) as u8,
    ]
}

/// The 32-bit value read from four little-endian bytes.
pub open spec fn le32_value(b: Seq<u8>) -> u32 {
    (b[0] as u32) | ((b[1] as u32) << 8) | ((b[2] as u32) << 16) | ((b[3] as u32) << 24)
}

/// Little-endian bytes of a 64-bit value.
pub open spec fn le64_bytes(v: u64) -> Seq<u8> {
    seq![
        (v & 0xff) as u8,
        ((v >> 8) & 0xff) as u8,
        ((v >> 16) & 0xff) as u8,
        ((v >> 24) & 0xff) as u8,
        ((v >> 32) & 0xff) as u8,
        ((v >> 40) & 0xff) as u8,
        ((v >> 48) & 0xff) as u8,
        ((v >> 56) & 0xff) as u8,
    ]
}

/// The 64-bit value read from eight little-endian bytes.
pub open spec fn le64_value(b: Seq<u8>) -> u64 {
    (b[0] as u64) | ((b[1] as u64) << 8) | ((b[2] as u64) << 16) | ((b[3] as u64) << 24)
        | ((b[4] as u64) << 32) | ((b[5] as u64) << 40) | ((b[6] as u64) << 48)
        | ((b[7] as u64) << 56)
}

/// Reassembling the little-endian bytes of a 32-bit value gives it back.
pub proof fn lemma_le32_round_trip(v: u32)
    ensures
        le32_value(le32_bytes(v)) == v,
{
    let b0 = (v & 0xff) as u8;
    let b1 = ((v >> 8) & 0xff) as u8;
    let b2 = ((v >> 16) & 0xff) as u8;
    let b3 = ((v >> 24) & 0xff) as u8;
    assert((b0 as u32) | ((b1 as u32) << 8) | ((b2 as u32) << 16) | ((b3 as u32) << 24) == v)
        by (bit_vector)
        requires
            b0 == (v & 0xff) as u8,
            b1 == ((v >> 8) & 0xff) as u8,
            b2 == ((v >> 16) & 0xff) as u8,
            b3 == ((v >> 24) & 0xff) as u8,;
}

/// Reassembling the little-endian bytes of a 64-bit value gives it back.
pub proof fn lemma_le64_round_trip(v: u64)
    ensures
        le64_value(le64_bytes(v)) == v,
{
    let b0 = (v & 0xff) as u8;
    let b1 = ((v >> 8) & 0xff) as u8;
    let b2 = ((v >> 16) & 0xff) as u8;
    let b3 = ((v >> 24) & 0xff) as u8;
    let b4 = ((v >> 32) & 0xff) as u8;
    let b5 = ((v >> 40) & 0xff) as u8;
    let b6 = ((v >> 48) & 0xff) as u8;
    let b7 = ((v >> 56) & 0xff) as u8;
    assert((b0 as u64) | ((b1 as u64) << 8) | ((b2 as u64) << 16) | ((b3 as u64) << 24)
        | ((b4 as u64) << 32) | ((b5 as u64) << 40) | ((b6 as u64) << 48) | ((b7 as u64) << 56)
        == v) by (bit_vector)
        requires
            b0 == (v & 0xff) as u8,
            b1 == ((v >> 8) & 0xff) as u8,
            b2 == ((v >> 16) & 0xff) as u8,
            b3 == ((v >> 24) & 0xff) as u8,
            b4 == ((v >> 32) & 0xff) as u8,
            b5 == ((v >> 40) & 0xff) as u8,
            b6 == ((v >> 48) & 0xff) as u8,
            b7 == ((v >> 56) & 0xff) as u8,;
}

/// Key bytes of a point id.
pub open spec fn key_bytes(id: u32) -> Seq<u8> {
    le32_bytes(id)
}

/// The point id read from key bytes, when they are exactly four.
pub open spec fn spec_decode_key(b: Seq<u8>) -> Option<u32> {
    if b.len() == 4 {
        Some(le32_value(b))
    } else {
        None
    }
}

/// Decoding the key bytes of an id gives the id back.
pub proof fn lemma_key_round_trip(id: u32)
    ensures
        spec_decode_key(key_bytes(id)) == Some(id),
{
    lemma_le32_round_trip(id);
}

/// Concatenated little-endian element bytes.
pub open spec fn elements_bytes(v: Seq<u32>) -> Seq<u8>
    decreases v.len(),
{
    if v.len() == 0 {
        Seq::empty()
    } else {
        le32_bytes(v[0]) + elements_bytes(v.drop_first())
    }
}

/// Element bytes take four bytes per element.
pub proof fn lemma_elements_bytes_len(v: Seq<u32>)
    ensures
        elements_bytes(v).len() == 4 * v.len(),
    decreases v.len(),
{
    if v.len() > 0 {
        lemma_elements_bytes_len(v.drop_first());
    }
}

/// Appending one element appends its four bytes.
pub proof fn lemma_elements_bytes_push(v: Seq<u32>, x: u32)
    ensures
        elements_bytes(v.push(x)) == elements_bytes(v) + le32_bytes(x),
    decreases v.len(),
{
    if v.len() == 0 {
        assert(v.push(x).drop_first() =~= Seq::<u32>::empty());
        assert(elements_bytes(Seq::<u32>::empty()) == Seq::<u8>::empty());
        assert(v =~= Seq::<u32>::empty());
        assert(elements_bytes(v.push(x)) =~= elements_bytes(v) + le32_bytes(x));
    } else {
        assert(v.push(x).drop_first() =~= v.drop_first().push(x));
        lemma_elements_bytes_push(v.drop_first(), x);
        assert(elements_bytes(v.push(x)) =~= elements_bytes(v) + le32_bytes(x));
    }
}

/// The bytes of element `k` sit at offset `4 * k`.
pub proof fn lemma_elements_bytes_index(v: Seq<u32>, k: int)
    requires
        0 <= k < v.len(),
    ensures
        elements_bytes(v).subrange(4 * k, 4 * k + 4) == le32_bytes(v[k]),
    decreases k,
{
    lemma_elements_bytes_len(v);
    lemma_elements_bytes_len(v.drop_first());
    if k == 0 {
        assert(elements_bytes(v).subrange(0, 4) =~= le32_bytes(v[0]));
    } else {
        lemma_elements_bytes_index(v.drop_first(), k - 1);
        assert(elements_bytes(v).subrange(4 * k, 4 * k + 4) =~= elements_bytes(
            v.drop_first(),
        ).subrange(4 * (k - 1), 4 * (k - 1) + 4));
    }
}

/// Whole value bytes of a record.
pub open spec fn record_bytes(deleted: bool, v: Seq<u32>) -> Seq<u8> {
    seq![if deleted { 1u8 } else { 0u8 }] + le64_bytes(v.len() as u64) + elements_bytes(v)
}

/// The record read from value bytes: flag byte, element count, elements; any
/// malformed shape reads as nothing.
pub open spec fn spec_decode_record(b: Seq<u8>) -> Option<(bool, Seq<u32>)> {
    if b.len() < 9 {
        None
    } else if b[0] != 0 && b[0] != 1 {
        None
    } else {
        let n = le64_value(b.subrange(1, 9)) as int;
        if b.len() - 9 == 4 * n {
            Some(
                (
                    b[0] == 1,
                    Seq::new(n as nat, |k: int| le32_value(b.subrange(9 + 4 * k, 13 + 4 * k))),
                ),
            )
        } else {
            None
        }
    }
}

/// Decoding the value bytes of a record gives the record back.
pub proof fn lemma_record_round_trip(deleted: bool, v: Seq<u32>)
    requires
        v.len() <= u64::MAX,
    ensures
        spec_decode_record(record_bytes(deleted, v)) == Some((deleted, v)),
{
    let b = record_bytes(deleted, v);
    lemma_elements_bytes_len(v);
    assert(b.subrange(1, 9) =~= le64_bytes(v.len() as u64));
    lemma_le64_round_trip(v.len() as u64);
    assert(le64_value(b.subrange(1, 9)) == v.len() as u64);
    assert(b[0] == if deleted { 1u8 } else { 0u8 });
    let parsed = Seq::new(v.len(), |k: int| le32_value(b.subrange(9 + 4 * k, 13 + 4 * k)));
    assert forall|k: int| 0 <= k < v.len() implies parsed[k] == v[k] by {
        assert(b.subrange(9 + 4 * k, 13 + 4 * k) =~= elements_bytes(v).subrange(
            4 * k,
            4 * k + 4,
        ));
        lemma_elements_bytes_index(v, k);
        lemma_le32_round_trip(v[k]);
    }
    assert(parsed =~= v);
}

/// Encodes a point id as its key bytes.
pub fn encode_point_id(id: u32) -> (r: Vec<u8>)
    ensures
        r@ == key_bytes(id),
{
    let mut out: Vec<u8> = Vec::new();
    out.push((id & 0xff) as u8);
    out.push(((id >> 8) & 0xff) as u8);
    out.push(((id >> 16) & 0xff) as u8);
    out.push(((id >> 24) & 0xff) as u8);
    proof {
        assert(out@ =~= key_bytes(id));
    }
    out
}

/// Decodes key bytes back into a point id.
pub fn decode_point_id(bytes: &Vec<u8>) -> (r: Option<u32>)
    ensures
        r == spec_decode_key(bytes@),
{
    if bytes.len() != 4 {
        None
    } else {
        let id = (bytes[0] as u32) | ((bytes[1] as u32) << 8) | ((bytes[2] as u32) << 16)
            | ((bytes[3] as u32) << 24);
        Some(id)
    }
}

/// Encodes a record as its value bytes.
pub fn encode_record(record: &StoredRecord) -> (r: Vec<u8>)
    ensures
        r@ == record_bytes(record.deleted, record.vector@),
{
    let mut out: Vec<u8> = Vec::new();
    if record.deleted {
        out.push(1u8);
    } else {
        out.push(0u8);
    }
    let n = record.vector.len() as u64;
    out.push((n & 0xff) as u8);
    out.push(((n >> 8) & 0xff) as u8);
    out.push(((n >> 16) & 0xff) as u8);
    out.push(((n >> 24) & 0xff) as u8);
    out.push(((n >> 32) & 0xff) as u8);
    out.push(((n >> 40) & 0xff) as u8);
    out.push(((n >> 48) & 0xff) as u8);
    out.push(((n >> 56) & 0xff) as u8);
    proof {
        assert(out@ =~= seq![if record.deleted { 1u8 } else { 0u8 }] + le64_bytes(
            record.vector@.len() as u64,
        ));
    }
    let ghost head = out@;
    let mut k: usize = 0;
    while k < record.vector.len()
        invariant
            k <= record.vector@.len(),
            head == seq![if record.deleted { 1u8 } else { 0u8 }] + le64_bytes(
                record.vector@.len() as u64,
            ),
            out@ == head + elements_bytes(record.vector@.take(k as int)),
        decreases record.vector@.len() - k,
    {
        let x = record.vector[k];
        out.push((x & 0xff) as u8);
        out.push(((x >> 8) & 0xff) as u8);
        out.push(((x >> 16) & 0xff) as u8);
        out.push(((x >> 24) & 0xff) as u8);
        proof {
            lemma_elements_bytes_push(record.vector@.take(k as int), x);
            assert(record.vector@.take(k as int).push(x) =~= record.vector@.take(k + 1 as int));
            assert(out@ =~= head + elements_bytes(record.vector@.take(k + 1 as int)));
        }
        k = k + 1;
    }
    proof {
        assert(record.vector@.take(record.vector@.len() as int) =~= record.vector@);
        assert(out@ =~= record_bytes(record.deleted, record.vector@));
    }
    out
}

/// Decodes value bytes back into a record.
pub fn decode_record(bytes: &Vec<u8>) -> (r: Option<StoredRecord>)
    ensures
        match r {
            Some(record) => spec_decode_record(bytes@) == Some((record.deleted, record.vector@)),
            None => spec_decode_record(bytes@) is None,
        },
{
    if bytes.len() < 9 {
        return None;
    }
    let flag = bytes[0];
    if flag != 0 && flag != 1 {
        return None;
    }
    let n64 = (bytes[1] as u64) | ((bytes[2] as u64) << 8) | ((bytes[3] as u64) << 16)
        | ((bytes[4] as u64) << 24) | ((bytes[5] as u64) << 32) | ((bytes[6] as u64) << 40)
        | ((bytes[7] as u64) << 48) | ((bytes[8] as u64) << 56);
    proof {
        assert(bytes@.subrange(1, 9) =~= seq![
            bytes@[1],
            bytes@[2],
            bytes@[3],
            bytes@[4],
            bytes@[5],
            bytes@[6],
            bytes@[7],
            bytes@[8],
        ]);
    }
    let body_len = bytes.len() - 9;
    if n64 > (body_len as u64) / 4 {
        proof {
            assert(4 * (n64 as int) != body_len as int) by (nonlinear_arith)
                requires
                    n64 > (body_len as u64) / 4,
                    body_len as u64 / 4 == body_len as int / 4,
                    body_len as int == 4 * (body_len as int / 4) + (body_len as int % 4),
                    0 <= body_len as int % 4 < 4,;
        }
        return None;
    }
    let n = n64 as usize;
    if body_len != 4 * n {
        return None;
    }
    let mut vector: Vec<u32> = Vec::new();
    let ghost parsed = Seq::new(
        n as nat,
        |k: int| le32_value(bytes@.subrange(9 + 4 * k, 13 + 4 * k)),
    );
    let mut k: usize = 0;
    while k < n
        invariant
            k <= n,
            n64 == n,
            bytes@.len() == 9 + 4 * n,
            9 + 4 * (n as int) <= usize::MAX,
            parsed == Seq::new(
                n as nat,
                |j: int| le32_value(bytes@.subrange(9 + 4 * j, 13 + 4 * j)),
            ),
            vector@ == parsed.take(k as int),
        decreases n - k,
    {
        let base = 9 + 4 * k;
        let x = (bytes[base] as u32) | ((bytes[base + 1] as u32) << 8) | ((bytes[base + 2]
            as u32) << 16) | ((bytes[base + 3] as u32) << 24);
        proof {
            assert(bytes@.subrange(9 + 4 * (k as int), 13 + 4 * (k as int)) =~= seq![
                bytes@[9 + 4 * (k as int)],
                bytes@[10 + 4 * (k as int)],
                bytes@[11 + 4 * (k as int)],
                bytes@[12 + 4 * (k as int)],
            ]);
            assert(x == parsed[k as int]);
        }
        vector.push(x);
        proof {
            assert(vector@ =~= parsed.take(k + 1 as int));
        }
        k = k + 1;
    }
    proof {
        assert(vector@ =~= parsed);
    }
    Some(StoredRecord { deleted: flag == 1, vector })
}

} // verus!
