//! The open-addressing hash store.
//!
//! File layout: the 64-byte header (tag `HASHIDX1`, bucket count, heap start,
//! entry count), then the bucket array (24 bytes each: key hash, record offset,
//! record length; a zero hash marks an empty bucket), then the payload heap of
//! self-describing records (key length as 4 bytes, key, value) in insertion
//! order. A key goes to the first empty bucket on its linear probe sequence,
//! which starts at its hash modulo the bucket count.
use crate::codec::{
    le_bytes, le_value, lemma_le_bytes_len, lemma_le_round_trip, lemma_pow256_values, push_le,
    read_le,
};
use crate::layout::{
    append_bytes, header_fields, header_image, lemma_header_round_trip, push_header, read_header,
};
use crate::store::{
    has_key, keys_fit, lemma_lookup_at, lookup, unique_keys, BlobStore, BlobStoreBuilder,
    StoreError,
};
use std::hash::{Hash, Hasher};
use vstd::prelude::*;
use vstd::slice::{slice_subrange, slice_to_vec};

verus! {

/// What std's `DefaultHasher` gives for `key` hashed as a byte slice.
pub uninterp spec fn default_hash_of(key: Seq<u8>) -> u64;

/// Relies on `std::collections::hash_map::DefaultHasher`: a hasher built with
/// `new()` has fixed keys, so the result depends on the key's bytes alone.
#[verifier::external_body]
fn default_hash(key: &[u8]) -> (r: u64)
    ensures
        r == default_hash_of(key@),
{
    let mut hasher = std::collections::hash_map::DefaultHasher::new();
    key.hash(&mut hasher);
    hasher.finish()
}

/// The stored hash of `key`: the default hash, with 0 (the empty-bucket mark) moved to 1.
pub open spec fn key_hash(key: Seq<u8>) -> u64 {
    if default_hash_of(key) == 0 {
        1
    } else {
        default_hash_of(key)
    }
}

/// Hashes a key for bucket placement; never 0.
pub fn hash_key(key: &[u8]) -> (r: u64)
    ensures
        r == key_hash(key@),
        r != 0,
{
    let h = default_hash(key);
    if h == 0 {
        1
    } else {
        h
    }
}

/// The format tag of a hash store file: `HASHIDX1`.
pub open spec fn hash_magic() -> Seq<u8> {
    seq![0x48u8, 0x41u8, 0x53u8, 0x48u8, 0x49u8, 0x44u8, 0x58u8, 0x31u8]
}

/// Bucket count for `n` entries: `n / 0.7` rounded up, and at least 1, which
/// keeps the load factor at or under 0.7.
pub open spec fn bucket_count_for(n: nat) -> nat {
    if n == 0 {
        1
    } else {
        ((10 * n + 6) / 7) as nat
    }
}

/// One slot of the bucket array.
#[derive(Clone, Copy, Debug, PartialEq, Eq, Structural)]
pub struct Bucket {
    /// Hash of the key stored here; 0 marks an empty bucket.
    pub key_hash: u64,
    /// File offset of the heap record.
    pub offset: u64,
    /// Length of the heap record.
    pub len: u64,
}

/// The empty bucket.
pub open spec fn empty_bucket() -> Bucket {
    Bucket { key_hash: 0, offset: 0, len: 0 }
}

/// `step` places along the probe sequence that starts at `h % bc`, wrapping.
pub open spec fn slot(h: u64, step: nat, bc: nat) -> nat {
    let x = (h as nat % bc) + step;
    if x >= bc {
        (x - bc) as nat
    } else {
        x
    }
}

/// The first step, from `step` on and under `T.len()`, whose slot is empty.
pub open spec fn first_empty(t: Seq<Bucket>, h: u64, step: nat) -> Option<nat>
    decreases t.len() - step,
{
    if step >= t.len() {
        None
    } else if t[slot(h, step, t.len()) as int].key_hash == 0 {
        Some(step)
    } else {
        first_empty(t, h, step + 1)
    }
}

/// `t` with bucket `b` put in the first empty slot of hash `h`'s probe sequence.
pub open spec fn place(t: Seq<Bucket>, h: u64, b: Bucket) -> Seq<Bucket> {
    match first_empty(t, h, 0) {
        Some(s) => t.update(slot(h, s, t.len()) as int, b),
        None => t,
    }
}

/// Size of the heap record for a pair.
pub open spec fn record_size(p: (Seq<u8>, Seq<u8>)) -> nat {
    4 + p.0.len() + p.1.len()
}

/// The heap record for a pair: key length, key, value.
pub open spec fn record_image(p: (Seq<u8>, Seq<u8>)) -> Seq<u8> {
    le_bytes(p.0.len(), 4) + p.0 + p.1
}

/// Total size of the heap records for `e`.
pub open spec fn records_size(e: Seq<(Seq<u8>, Seq<u8>)>) -> nat
    decreases e.len(),
{
    if e.len() == 0 {
        0
    } else {
        records_size(e.drop_last()) + record_size(e.last())
    }
}

/// The payload heap for `e`: its records in insertion order.
pub open spec fn records_image(e: Seq<(Seq<u8>, Seq<u8>)>) -> Seq<u8>
    decreases e.len(),
{
    if e.len() == 0 {
        Seq::empty()
    } else {
        records_image(e.drop_last()) + record_image(e.last())
    }
}

/// The bucket that entry `j` of `e` gets when the heap starts at `hs`.
pub open spec fn entry_bucket(e: Seq<(Seq<u8>, Seq<u8>)>, j: int, hs: nat) -> Bucket {
    Bucket {
        key_hash: key_hash(e[j].0),
        offset: (hs + records_size(e.take(j))) as u64,
        len: record_size(e[j]) as u64,
    }
}

/// The bucket array after inserting the pairs of `e` in order into `bc` empty buckets.
pub open spec fn table_for(e: Seq<(Seq<u8>, Seq<u8>)>, bc: nat, hs: nat) -> Seq<Bucket>
    decreases e.len(),
{
    if e.len() == 0 {
        Seq::new(bc, |i: int| empty_bucket())
    } else {
        place(
            table_for(e.drop_last(), bc, hs),
            key_hash(e.last().0),
            entry_bucket(e, e.len() - 1, hs),
        )
    }
}

/// The 24 bytes of a bucket.
pub open spec fn bucket_image(b: Bucket) -> Seq<u8> {
    le_bytes(b.key_hash as nat, 8) + le_bytes(b.offset as nat, 8) + le_bytes(b.len as nat, 8)
}

/// The bucket array, bucket after bucket.
pub open spec fn buckets_image(t: Seq<Bucket>) -> Seq<u8>
    decreases t.len(),
{
    if t.len() == 0 {
        Seq::empty()
    } else {
        buckets_image(t.drop_last()) + bucket_image(t.last())
    }
}

/// The sealed hash file for the pairs `e`, inserted in the order given.
pub open spec fn hash_image(e: Seq<(Seq<u8>, Seq<u8>)>) -> Seq<u8> {
    let bc = bucket_count_for(e.len());
    let hs = 64 + 24 * bc;
    header_image(hash_magic(), bc, hs, e.len()) + buckets_image(table_for(e, bc, hs))
        + records_image(e)
}

/// The sealed hash file for `e` has a length that memory addresses can reach.
pub open spec fn hash_image_fits(e: Seq<(Seq<u8>, Seq<u8>)>) -> bool {
    64 + 24 * bucket_count_for(e.len()) + records_size(e) <= usize::MAX
}

/// Number of non-empty buckets in `t`.
pub open spec fn count_used(t: Seq<Bucket>) -> nat
    decreases t.len(),
{
    if t.len() == 0 {
        0
    } else {
        count_used(t.drop_last()) + if t.last().key_hash != 0 {
            1nat
        } else {
            0nat
        }
    }
}

/// The probe step at which entry `j` of `e` found its bucket.
pub open spec fn placed_step(e: Seq<(Seq<u8>, Seq<u8>)>, j: int, bc: nat, hs: nat) -> Option<nat> {
    first_empty(table_for(e.take(j), bc, hs), key_hash(e[j].0), 0)
}

/// The bucket that entry `j` of `e` went to.
pub open spec fn placed_slot(e: Seq<(Seq<u8>, Seq<u8>)>, j: int, bc: nat, hs: nat) -> nat {
    slot(key_hash(e[j].0), placed_step(e, j, bc, hs)->Some_0, bc)
}

/// What holds of the bucket array `t` built from `e`: every entry sits at its
/// placed bucket behind a run of full buckets, every full bucket holds an
/// entry, and as many buckets are full as there are entries.
pub open spec fn table_inv(e: Seq<(Seq<u8>, Seq<u8>)>, bc: nat, hs: nat, t: Seq<Bucket>) -> bool {
    &&& t.len() == bc
    &&& count_used(t) == e.len()
    &&& forall|j: int|
        0 <= j < e.len() ==> {
            &&& #[trigger] placed_step(e, j, bc, hs) is Some
            &&& placed_step(e, j, bc, hs)->Some_0 < bc
            &&& t[placed_slot(e, j, bc, hs) as int] == entry_bucket(e, j, hs)
            &&& forall|s: nat|
                s < placed_step(e, j, bc, hs)->Some_0 ==> #[trigger] t[slot(
                    key_hash(e[j].0),
                    s,
                    bc,
                ) as int].key_hash != 0
        }
    &&& forall|q: int|
        0 <= q < bc && #[trigger] t[q].key_hash != 0 ==> exists|j: int|
            0 <= j < e.len() && #[trigger] placed_slot(e, j, bc, hs) == q
}

proof fn lemma_first_empty_some(t: Seq<Bucket>, h: u64, step: nat)
    requires
        first_empty(t, h, step) is Some,
    ensures
        ({
            let s = first_empty(t, h, step)->Some_0;
            &&& step <= s < t.len()
            &&& t[slot(h, s, t.len()) as int].key_hash == 0
            &&& forall|s2: nat|
                step <= s2 < s ==> #[trigger] t[slot(h, s2, t.len()) as int].key_hash != 0
        }),
    decreases t.len() - step,
{
    if step < t.len() && t[slot(h, step, t.len()) as int].key_hash != 0 {
        lemma_first_empty_some(t, h, step + 1);
    }
}

proof fn lemma_first_empty_none(t: Seq<Bucket>, h: u64, step: nat)
    requires
        first_empty(t, h, step) is None,
    ensures
        forall|s2: nat| step <= s2 < t.len() ==> #[trigger] t[slot(h, s2, t.len()) as int].key_hash
            != 0,
    decreases t.len() - step,
{
    if step < t.len() {
        lemma_first_empty_none(t, h, step + 1);
    }
}

proof fn lemma_slot_facts(h: u64, bc: nat)
    requires
        bc > 0,
    ensures
        forall|s: nat| s < bc ==> #[trigger] slot(h, s, bc) < bc,
        forall|a: nat, b: nat|
            a < bc && b < bc && #[trigger] slot(h, a, bc) == #[trigger] slot(h, b, bc) ==> a == b,
{
}

/// The probe step of `h` that lands on bucket `q`.
proof fn lemma_slot_cover(h: u64, bc: nat, q: nat) -> (s: nat)
    requires
        q < bc,
    ensures
        s < bc,
        slot(h, s, bc) == q,
{
    let a0 = h as nat % bc;
    if q >= a0 {
        (q - a0) as nat
    } else {
        (q + bc - a0) as nat
    }
}

proof fn lemma_count_update(t: Seq<Bucket>, q: int, b: Bucket)
    requires
        0 <= q < t.len(),
        t[q].key_hash == 0,
        b.key_hash != 0,
    ensures
        count_used(t.update(q, b)) == count_used(t) + 1,
    decreases t.len(),
{
    let u = t.update(q, b);
    if q == t.len() - 1 {
        assert(u.drop_last() =~= t.drop_last());
    } else {
        assert(u.drop_last() =~= t.drop_last().update(q, b));
        lemma_count_update(t.drop_last(), q, b);
    }
}

proof fn lemma_count_full(t: Seq<Bucket>)
    requires
        forall|q: int| 0 <= q < t.len() ==> #[trigger] t[q].key_hash != 0,
    ensures
        count_used(t) == t.len(),
    decreases t.len(),
{
    if t.len() > 0 {
        let d = t.drop_last();
        assert forall|q: int| 0 <= q < d.len() implies #[trigger] d[q].key_hash != 0 by {
            assert(d[q] == t[q]);
        }
        lemma_count_full(d);
    }
}

proof fn lemma_count_none(bc: nat)
    ensures
        count_used(Seq::new(bc, |i: int| empty_bucket())) == 0,
    decreases bc,
{
    if bc > 0 {
        assert(Seq::new(bc, |i: int| empty_bucket()).drop_last() =~= Seq::new(
            (bc - 1) as nat,
            |i: int| empty_bucket(),
        ));
        lemma_count_none((bc - 1) as nat);
    }
}

proof fn lemma_prefix_entry(e: Seq<(Seq<u8>, Seq<u8>)>, j: int, bc: nat, hs: nat)
    requires
        0 <= j < e.len() - 1,
    ensures
        entry_bucket(e, j, hs) == entry_bucket(e.drop_last(), j, hs),
        placed_step(e, j, bc, hs) == placed_step(e.drop_last(), j, bc, hs),
        placed_slot(e, j, bc, hs) == placed_slot(e.drop_last(), j, bc, hs),
{
    assert(e.take(j) =~= e.drop_last().take(j));
}

/// Placing one more entry keeps the bucket array's invariant, provided a
/// bucket was still empty.
proof fn lemma_table_step(e: Seq<(Seq<u8>, Seq<u8>)>, bc: nat, hs: nat)
    requires
        e.len() > 0,
        e.len() <= bc,
        table_inv(e.drop_last(), bc, hs, table_for(e.drop_last(), bc, hs)),
    ensures
        table_inv(e, bc, hs, table_for(e, bc, hs)),
        first_empty(table_for(e.drop_last(), bc, hs), key_hash(e.last().0), 0) is Some,
{
    let d = e.drop_last();
    let n = e.len();
    let last = n - 1;
    let t0 = table_for(d, bc, hs);
    let h = key_hash(e[last].0);
    let b = entry_bucket(e, last, hs);
    lemma_slot_facts(h, bc);
    assert(e.take(last) =~= d);
    if first_empty(t0, h, 0) is None {
        lemma_first_empty_none(t0, h, 0);
        assert forall|q: int| 0 <= q < t0.len() implies #[trigger] t0[q].key_hash != 0 by {
            let s = lemma_slot_cover(h, bc, q as nat);
            assert(t0[slot(h, s, t0.len()) as int].key_hash != 0);
        }
        lemma_count_full(t0);
        assert(false);
    }
    lemma_first_empty_some(t0, h, 0);
    let s = first_empty(t0, h, 0)->Some_0;
    let p = slot(h, s, bc);
    let t = table_for(e, bc, hs);
    assert(t == t0.update(p as int, b));
    assert(placed_step(e, last, bc, hs) == Some(s));
    lemma_count_update(t0, p as int, b);
    assert forall|j: int| 0 <= j < n implies {
        &&& #[trigger] placed_step(e, j, bc, hs) is Some
        &&& placed_step(e, j, bc, hs)->Some_0 < bc
        &&& t[placed_slot(e, j, bc, hs) as int] == entry_bucket(e, j, hs)
        &&& forall|s2: nat|
            s2 < placed_step(e, j, bc, hs)->Some_0 ==> #[trigger] t[slot(
                key_hash(e[j].0),
                s2,
                bc,
            ) as int].key_hash != 0
    } by {
        if j < last {
            lemma_prefix_entry(e, j, bc, hs);
            assert(d[j] == e[j]);
            assert(placed_step(d, j, bc, hs) is Some);
            let hj = key_hash(e[j].0);
            lemma_slot_facts(hj, bc);
            assert(t0[placed_slot(d, j, bc, hs) as int].key_hash != 0);
            assert forall|s2: nat| s2 < placed_step(e, j, bc, hs)->Some_0 implies #[trigger] t[slot(
                hj,
                s2,
                bc,
            ) as int].key_hash != 0 by {
                assert(t0[slot(hj, s2, bc) as int].key_hash != 0);
            }
        } else {
            assert forall|s2: nat| s2 < s implies #[trigger] t[slot(h, s2, bc) as int].key_hash
                != 0 by {
                assert(t0[slot(h, s2, bc) as int].key_hash != 0);
            }
        }
    }
    assert forall|q: int| 0 <= q < bc && #[trigger] t[q].key_hash != 0 implies exists|j: int|
        0 <= j < n && #[trigger] placed_slot(e, j, bc, hs) == q by {
        if q == p {
            assert(placed_slot(e, last, bc, hs) == q);
        } else {
            assert(t0[q].key_hash != 0);
            let j = choose|j: int| 0 <= j < d.len() && #[trigger] placed_slot(d, j, bc, hs) == q;
            lemma_prefix_entry(e, j, bc, hs);
            assert(placed_slot(e, j, bc, hs) == q);
        }
    }
}

/// The bucket array built from `e` satisfies `table_inv` when no more than
/// `bc` entries were placed.
pub proof fn lemma_table_inv(e: Seq<(Seq<u8>, Seq<u8>)>, bc: nat, hs: nat)
    requires
        e.len() <= bc,
    ensures
        table_inv(e, bc, hs, table_for(e, bc, hs)),
    decreases e.len(),
{
    if e.len() == 0 {
        lemma_count_none(bc);
    } else {
        lemma_table_inv(e.drop_last(), bc, hs);
        lemma_table_step(e, bc, hs);
    }
}

proof fn lemma_records_size_prefix(e: Seq<(Seq<u8>, Seq<u8>)>, i: int)
    requires
        0 <= i <= e.len(),
    ensures
        records_size(e.take(i)) <= records_size(e),
    decreases e.len(),
{
    if i < e.len() {
        assert(e.drop_last().take(i) =~= e.take(i));
        lemma_records_size_prefix(e.drop_last(), i);
    } else {
        assert(e.take(i) =~= e);
    }
}

proof fn lemma_take_step(e: Seq<(Seq<u8>, Seq<u8>)>, i: int)
    requires
        0 <= i < e.len(),
    ensures
        e.take(i + 1).drop_last() == e.take(i),
        e.take(i + 1).last() == e[i],
        e.take(i + 1).len() == i + 1,
{
    assert(e.take(i + 1).drop_last() =~= e.take(i));
}

/// The slot of the first empty bucket on `h`'s probe sequence.
fn probe_empty(table: &Vec<Bucket>, h: u64) -> (r: usize)
    requires
        0 < table@.len() < usize::MAX / 2,
        first_empty(table@, h, 0) is Some,
    ensures
        r == slot(h, first_empty(table@, h, 0)->Some_0, table@.len()),
{
    let bc = table.len();
    let start = (h % (bc as u64)) as usize;
    let mut step: usize = 0;
    while step < bc
        invariant
            bc == table@.len() < usize::MAX / 2,
            start == h as nat % bc as nat,
            step <= bc,
            first_empty(table@, h, 0) == first_empty(table@, h, step as nat),
        decreases bc - step,
    {
        let x = start + step;
        let q = if x >= bc {
            x - bc
        } else {
            x
        };
        if table[q].key_hash == 0 {
            return q;
        }
        step = step + 1;
    }
    0
}

/// Appends the 24 bytes of a bucket.
fn push_bucket(out: &mut Vec<u8>, b: Bucket)
    ensures
        final(out)@ == old(out)@ + bucket_image(b),
{
    push_le(out, b.key_hash, 8);
    push_le(out, b.offset, 8);
    push_le(out, b.len, 8);
    proof {
        assert(final(out)@ =~= old(out)@ + bucket_image(b));
    }
}

/// Accumulates pairs in insertion order; equal keys are kept as separate entries.
pub struct HashDatStoreBuilder {
    entries: Vec<(Vec<u8>, Vec<u8>)>,
}

impl HashDatStoreBuilder {
    /// The pairs inserted so far, in insertion order.
    pub closed spec fn entries(&self) -> Seq<(Seq<u8>, Seq<u8>)> {
        Seq::new(self.entries@.len(), |i: int| (self.entries@[i].0@, self.entries@[i].1@))
    }

    /// Each key fits its length prefix.
    pub open spec fn wf(&self) -> bool {
        keys_fit(self.entries())
    }
}

impl BlobStoreBuilder for HashDatStoreBuilder {
    open spec fn pending(&self) -> Seq<(Seq<u8>, Seq<u8>)> {
        self.entries()
    }

    open spec fn valid(&self) -> bool {
        self.wf()
    }

    open spec fn image_of(e: Seq<(Seq<u8>, Seq<u8>)>) -> Seq<u8> {
        hash_image(e)
    }

    open spec fn fits(e: Seq<(Seq<u8>, Seq<u8>)>) -> bool {
        hash_image_fits(e)
    }

    /// An empty builder.
    fn create() -> (r: Self) {
        let r = HashDatStoreBuilder { entries: Vec::new() };
        proof {
            assert(r.entries() =~= Seq::<(Seq<u8>, Seq<u8>)>::empty());
        }
        r
    }

    /// Appends the pair (`key`, `value`).
    fn insert(&mut self, key: &[u8], value: &[u8]) -> (r: Result<(), StoreError>)
        ensures
            key@.len() <= u32::MAX ==> final(self).entries() == old(self).entries().push(
                (key@, value@),
            ),
    {
        if key.len() > u32::MAX as usize {
            return Err(StoreError::KeyTooLong);
        }
        let ghost e = self.entries();
        self.entries.push((slice_to_vec(key), slice_to_vec(value)));
        proof {
            assert(self.entries() =~= e.push((key@, value@)));
        }
        Ok(())
    }

    /// Lays out the sealed file: header, bucket array (each pair placed by
    /// linear probing in insertion order), then the heap records.
    fn finish(self) -> (r: Result<Vec<u8>, StoreError>) {
        let ghost e = self.entries();
        let n = self.entries.len();
        let bcw: u128 = if n == 0 {
            1
        } else {
            (10 * (n as u128) + 6) / 7
        };
        let fixed: u128 = 64 + 24 * bcw;
        if fixed > usize::MAX as u128 {
            return Err(StoreError::TooLarge);
        }
        let bc = bcw as usize;
        let hs = fixed as usize;
        proof {
            assert(bc == bucket_count_for(n as nat));
            assert(n <= bc);
            assert(e.take(0) =~= Seq::<(Seq<u8>, Seq<u8>)>::empty());
        }
        let mut total: usize = hs;
        let mut i: usize = 0;
        while i < n
            invariant
                e == self.entries(),
                n == e.len(),
                i <= n,
                total == hs + records_size(e.take(i as int)),
                hs == 64 + 24 * bc,
                bc == bucket_count_for(n as nat),
            decreases n - i,
        {
            proof {
                lemma_take_step(e, i as int);
                lemma_records_size_prefix(e, i as int + 1);
            }
            let klen = self.entries[i].0.len();
            let vlen = self.entries[i].1.len();
            let room: usize = usize::MAX - total;
            if klen > room || vlen > room - klen || 4 > room - klen - vlen {
                return Err(StoreError::TooLarge);
            }
            total = total + 4 + klen + vlen;
            i = i + 1;
        }
        proof {
            assert(e.take(n as int) =~= e);
        }
        let mut table: Vec<Bucket> = Vec::with_capacity(bc);
        let mut q: usize = 0;
        while q < bc
            invariant
                q <= bc,
                table@ == Seq::new(q as nat, |k: int| empty_bucket()),
            decreases bc - q,
        {
            table.push(Bucket { key_hash: 0, offset: 0, len: 0 });
            proof {
                assert(table@ =~= Seq::new((q + 1) as nat, |k: int| empty_bucket()));
            }
            q = q + 1;
        }
        let mut cursor: usize = hs;
        let mut i: usize = 0;
        while i < n
            invariant
                e == self.entries(),
                n == e.len(),
                i <= n <= bc,
                bc == bucket_count_for(n as nat),
                hs == 64 + 24 * bc,
                total == hs + records_size(e),
                cursor == hs + records_size(e.take(i as int)),
                table@ == table_for(e.take(i as int), bc as nat, hs as nat),
                table@.len() == bc,
            decreases n - i,
        {
            proof {
                lemma_take_step(e, i as int);
                lemma_records_size_prefix(e, i as int + 1);
                lemma_table_inv(e.take(i as int), bc as nat, hs as nat);
                lemma_table_step(e.take(i as int + 1), bc as nat, hs as nat);
            }
            let key = self.entries[i].0.as_slice();
            let vlen = self.entries[i].1.len();
            let h = hash_key(key);
            let q = probe_empty(&table, h);
            let size = 4 + key.len() + vlen;
            let ghost before = table@;
            proof {
                lemma_first_empty_some(before, h, 0);
                lemma_slot_facts(h, bc as nat);
            }
            table[q] = Bucket { key_hash: h, offset: cursor as u64, len: size as u64 };
            proof {
                assert(table@ == place(before, h, entry_bucket(e.take(i + 1), i as int, hs as nat)));
                assert(table@ =~= table_for(e.take(i + 1), bc as nat, hs as nat));
            }
            cursor = cursor + size;
            i = i + 1;
        }
        proof {
            assert(e.take(n as int) =~= e);
        }
        let mut out: Vec<u8> = Vec::with_capacity(total);
        let magic: Vec<u8> = vec![0x48u8, 0x41u8, 0x53u8, 0x48u8, 0x49u8, 0x44u8, 0x58u8, 0x31u8];
        proof {
            assert(magic@ =~= hash_magic());
        }
        push_header(&mut out, magic.as_slice(), bc as u64, hs as u64, n as u64);
        let ghost header = out@;
        let mut q: usize = 0;
        proof {
            assert(table@.take(0) =~= Seq::<Bucket>::empty());
            assert(out@ =~= header + buckets_image(table@.take(0)));
        }
        while q < bc
            invariant
                q <= bc == table@.len(),
                out@ == header + buckets_image(table@.take(q as int)),
            decreases bc - q,
        {
            push_bucket(&mut out, table[q]);
            proof {
                assert(table@.take(q + 1).drop_last() =~= table@.take(q as int));
                assert(out@ =~= header + buckets_image(table@.take(q + 1)));
            }
            q = q + 1;
        }
        proof {
            assert(table@.take(bc as int) =~= table@);
        }
        let ghost body = out@;
        let mut i: usize = 0;
        proof {
            assert(out@ =~= body + records_image(e.take(0)));
        }
        while i < n
            invariant
                e == self.entries(),
                n == e.len(),
                i <= n,
                keys_fit(e),
                out@ == body + records_image(e.take(i as int)),
            decreases n - i,
        {
            proof {
                lemma_take_step(e, i as int);
            }
            let key = self.entries[i].0.as_slice();
            push_le(&mut out, key.len() as u64, 4);
            append_bytes(&mut out, key);
            append_bytes(&mut out, self.entries[i].1.as_slice());
            proof {
                assert(out@ =~= body + records_image(e.take(i + 1)));
            }
            i = i + 1;
        }
        proof {
            assert(e.take(n as int) =~= e);
        }
        Ok(out)
    }
}

/// The header of a hash file: bucket count, heap start and entry count, when
/// the tag matches and the fields agree with each other.
pub open spec fn hash_header(data: Seq<u8>) -> Result<(nat, nat, nat), StoreError> {
    if data.len() < 64 {
        Err(StoreError::Truncated)
    } else if data.subrange(0, 8) != hash_magic() {
        Err(StoreError::BadMagic)
    } else {
        let f = header_fields(data);
        if f.0 >= 1 && f.1 == 64 + 24 * f.0 && f.2 <= f.0 {
            Ok(f)
        } else {
            Err(StoreError::BadLayout)
        }
    }
}

/// The header of a hash file whose bucket array lies within `data` and holds
/// as many non-empty buckets as the header declares entries.
pub open spec fn hash_layout(data: Seq<u8>) -> Result<(nat, nat, nat), StoreError> {
    match hash_header(data) {
        Err(e) => Err(e),
        Ok(f) => if f.1 <= data.len() && count_used(parse_buckets(data, f.0)) == f.2 {
            Ok(f)
        } else {
            Err(StoreError::BadLayout)
        },
    }
}

/// The bucket whose 24 bytes start at `pos`.
pub open spec fn bucket_at(data: Seq<u8>, pos: int) -> Bucket {
    Bucket {
        key_hash: le_value(data.subrange(pos, pos + 8)) as u64,
        offset: le_value(data.subrange(pos + 8, pos + 16)) as u64,
        len: le_value(data.subrange(pos + 16, pos + 24)) as u64,
    }
}

/// The `bc` buckets that follow the header.
pub open spec fn parse_buckets(data: Seq<u8>, bc: nat) -> Seq<Bucket> {
    Seq::new(bc, |t: int| bucket_at(data, 64 + 24 * t))
}

/// The first step from `step` on whose bucket holds hash `h`, unless an
/// empty bucket or the end of the probe sequence comes first.
pub open spec fn next_candidate(t: Seq<Bucket>, h: u64, step: nat) -> Option<nat>
    decreases t.len() - step,
{
    if step >= t.len() {
        None
    } else if t[slot(h, step, t.len()) as int].key_hash == 0 {
        None
    } else if t[slot(h, step, t.len()) as int].key_hash == h {
        Some(step)
    } else {
        next_candidate(t, h, step + 1)
    }
}

/// The key of the heap record at file offset `off`, read through its length prefix.
pub open spec fn record_key_at(data: Seq<u8>, off: nat) -> Result<Seq<u8>, StoreError> {
    if off + 4 > data.len() {
        Err(StoreError::Truncated)
    } else {
        let kend = off + 4 + le_value(data.subrange(off as int, off + 4 as int));
        if kend > data.len() {
            Err(StoreError::Truncated)
        } else {
            Ok(data.subrange(off + 4 as int, kend as int))
        }
    }
}

/// The probe for `key` (hash `h`) from `step` on: a bucket whose hash
/// matches and whose record holds `key`, or nothing at an empty bucket or
/// after every bucket was tried.
pub open spec fn hash_find(t: Seq<Bucket>, data: Seq<u8>, key: Seq<u8>, h: u64, step: nat) -> Result<
    Option<Bucket>,
    StoreError,
>
    decreases t.len() - step,
{
    if step >= t.len() {
        Ok(None)
    } else {
        let b = t[slot(h, step, t.len()) as int];
        if b.key_hash == 0 {
            Ok(None)
        } else if b.key_hash != h {
            hash_find(t, data, key, h, step + 1)
        } else {
            match record_key_at(data, b.offset as nat) {
                Err(e) => Err(e),
                Ok(k) => if k == key {
                    Ok(Some(b))
                } else {
                    hash_find(t, data, key, h, step + 1)
                },
            }
        }
    }
}

/// The bytes of the record that bucket `b` points to.
pub open spec fn record_bytes(data: Seq<u8>, b: Bucket) -> Result<Seq<u8>, StoreError> {
    if b.offset + b.len > data.len() {
        Err(StoreError::Truncated)
    } else {
        Ok(data.subrange(b.offset as int, b.offset + b.len as int))
    }
}

/// The key held in a heap record.
pub open spec fn record_key(rec: Seq<u8>) -> Result<Seq<u8>, StoreError> {
    if rec.len() < 4 {
        Err(StoreError::Truncated)
    } else {
        let kend = 4 + le_value(rec.subrange(0, 4));
        if kend > rec.len() {
            Err(StoreError::Truncated)
        } else {
            Ok(rec.subrange(4, kend as int))
        }
    }
}

/// The value held in a heap record: what follows its key.
pub open spec fn record_value(rec: Seq<u8>) -> Result<Seq<u8>, StoreError> {
    if rec.len() < 4 {
        Err(StoreError::Truncated)
    } else {
        let kend = 4 + le_value(rec.subrange(0, 4));
        if kend > rec.len() {
            Err(StoreError::Truncated)
        } else {
            Ok(rec.subrange(kend as int, rec.len() as int))
        }
    }
}

/// What a lookup of `key` gives, over bucket array `t` and file bytes `data`.
pub open spec fn hash_get(t: Seq<Bucket>, data: Seq<u8>, key: Seq<u8>) -> Result<
    Option<Seq<u8>>,
    StoreError,
> {
    match hash_find(t, data, key, key_hash(key), 0) {
        Err(e) => Err(e),
        Ok(None) => Ok(None),
        Ok(Some(b)) => match record_bytes(data, b) {
            Err(e) => Err(e),
            Ok(rec) => match record_value(rec) {
                Err(e) => Err(e),
                Ok(v) => Ok(Some(v)),
            },
        },
    }
}

/// The keys of the records that the non-empty buckets from `q` on point to,
/// in bucket order; the first unreadable record ends the listing with its error.
pub open spec fn keys_from(t: Seq<Bucket>, data: Seq<u8>, q: nat) -> Result<
    Seq<Seq<u8>>,
    StoreError,
>
    decreases t.len() - q,
{
    if q >= t.len() {
        Ok(Seq::empty())
    } else if t[q as int].key_hash == 0 {
        keys_from(t, data, q + 1)
    } else {
        match record_bytes(data, t[q as int]) {
            Err(e) => Err(e),
            Ok(rec) => match record_key(rec) {
                Err(e) => Err(e),
                Ok(k) => match keys_from(t, data, q + 1) {
                    Err(e) => Err(e),
                    Ok(ks) => Ok(seq![k] + ks),
                },
            },
        }
    }
}

/// Reads the bucket whose bytes start at `pos`.
fn read_bucket(data: &[u8], pos: usize) -> (r: Bucket)
    requires
        pos + 24 <= data.len(),
    ensures
        r == bucket_at(data@, pos as int),
{
    Bucket {
        key_hash: read_le(data, pos, 8),
        offset: read_le(data, pos + 8, 8),
        len: read_le(data, pos + 16, 8),
    }
}

/// The key held in a heap record.
pub fn key_of_record(rec: &[u8]) -> (r: Result<&[u8], StoreError>)
    ensures
        match r {
            Ok(k) => record_key(rec@) == Ok::<Seq<u8>, StoreError>(k@),
            Err(e) => record_key(rec@) == Err::<Seq<u8>, StoreError>(e),
        },
{
    if rec.len() < 4 {
        return Err(StoreError::Truncated);
    }
    let klen = read_le(rec, 0, 4);
    if klen > (rec.len() - 4) as u64 {
        return Err(StoreError::Truncated);
    }
    Ok(slice_subrange(rec, 4, 4 + klen as usize))
}

/// The value held in a heap record: the bytes after its key.
pub fn value_of_record(rec: &[u8]) -> (r: Result<Vec<u8>, StoreError>)
    ensures
        match r {
            Ok(v) => record_value(rec@) == Ok::<Seq<u8>, StoreError>(v@),
            Err(e) => record_value(rec@) == Err::<Seq<u8>, StoreError>(e),
        },
{
    if rec.len() < 4 {
        return Err(StoreError::Truncated);
    }
    let klen = read_le(rec, 0, 4);
    if klen > (rec.len() - 4) as u64 {
        return Err(StoreError::Truncated);
    }
    Ok(slice_to_vec(slice_subrange(rec, 4 + klen as usize, rec.len())))
}

/// The bytes of the record that bucket `b` points to within `data`.
fn record_slice<'a>(data: &'a [u8], b: Bucket) -> (r: Result<&'a [u8], StoreError>)
    ensures
        match r {
            Ok(rec) => record_bytes(data@, b) == Ok::<Seq<u8>, StoreError>(rec@),
            Err(e) => record_bytes(data@, b) == Err::<Seq<u8>, StoreError>(e),
        },
{
    let size = data.len() as u64;
    if b.offset > size || b.len > size - b.offset {
        return Err(StoreError::Truncated);
    }
    Ok(slice_subrange(data, b.offset as usize, (b.offset + b.len) as usize))
}

/// Bucket count and heap start read from a hash file's header, which must
/// hold at least its first 64 bytes: the heap start is how many bytes
/// `HashIndex::open` needs.
pub fn index_len(header: &[u8]) -> (r: Result<u64, StoreError>)
    ensures
        match r {
            Ok(hs) => hash_header(header@) matches Ok(f) && hs == f.1,
            Err(e) => hash_header(header@) == Err::<(nat, nat, nat), StoreError>(e),
        },
{
    let magic: Vec<u8> = vec![0x48u8, 0x41u8, 0x53u8, 0x48u8, 0x49u8, 0x44u8, 0x58u8, 0x31u8];
    proof {
        assert(magic@ =~= hash_magic());
    }
    let (bc, hs, count) = match read_header(header, magic.as_slice()) {
        Ok(f) => f,
        Err(e) => {
            return Err(e);
        },
    };
    if bc < 1 || bc > (u64::MAX - 64) / 24 || hs != 64 + 24 * bc || count > bc {
        return Err(StoreError::BadLayout);
    }
    Ok(hs)
}

/// The bucket array of a hash file, held in memory.
pub struct HashIndex {
    buckets: Vec<Bucket>,
    entry_count: usize,
}

impl HashIndex {
    /// The buckets.
    pub closed spec fn table(&self) -> Seq<Bucket> {
        self.buckets@
    }

    /// The entry count that the header declares.
    pub closed spec fn count(&self) -> nat {
        self.entry_count as nat
    }

    /// There is a bucket, and probe arithmetic stays in range.
    pub open spec fn wf(&self) -> bool {
        0 < self.table().len() < usize::MAX / 24
    }

    /// Reads the header and the bucket array from `data`, which holds the
    /// file from its start at least up to the heap.
    pub fn open(data: &[u8]) -> (r: Result<HashIndex, StoreError>)
        ensures
            match r {
                Ok(ix) => hash_layout(data@) matches Ok(f) && ix.wf() && ix.table()
                    == parse_buckets(data@, f.0) && ix.count() == f.2,
                Err(e) => hash_layout(data@) == Err::<(nat, nat, nat), StoreError>(e),
            },
    {
        let hs = match index_len(data) {
            Ok(hs) => hs,
            Err(e) => {
                return Err(e);
            },
        };
        if hs > data.len() as u64 {
            return Err(StoreError::BadLayout);
        }
        let bc = ((hs - 64) / 24) as usize;
        let count = read_le(data, 24, 8);
        proof {
            assert(bc as nat == header_fields(data@).0);
        }
        let mut buckets: Vec<Bucket> = Vec::with_capacity(bc);
        let mut used: usize = 0;
        let mut t: usize = 0;
        proof {
            assert(buckets@ =~= Seq::new(0, |k: int| bucket_at(data@, 64 + 24 * k)));
        }
        while t < bc
            invariant
                t <= bc,
                64 + 24 * bc <= data.len(),
                buckets@ == Seq::new(t as nat, |k: int| bucket_at(data@, 64 + 24 * k)),
                used == count_used(buckets@),
                used <= t,
            decreases bc - t,
        {
            let ghost before = buckets@;
            proof {
                assert(24 * t + 24 <= 24 * bc) by (nonlinear_arith)
                    requires
                        t < bc,
                ;
            }
            let b = read_bucket(data, 64 + 24 * t);
            buckets.push(b);
            proof {
                assert(buckets@ =~= Seq::new((t + 1) as nat, |k: int| bucket_at(data@, 64 + 24 * k)));
                assert(buckets@.drop_last() =~= before);
            }
            if b.key_hash != 0 {
                used = used + 1;
            }
            t = t + 1;
        }
        proof {
            assert(buckets@ =~= parse_buckets(data@, bc as nat));
        }
        if used as u64 != count {
            return Err(StoreError::BadLayout);
        }
        Ok(HashIndex { buckets, entry_count: used })
    }

    /// Number of buckets.
    pub fn bucket_count(&self) -> (r: usize)
        ensures
            r == self.table().len(),
    {
        self.buckets.len()
    }

    /// The bucket at slot `q`.
    pub fn bucket(&self, q: usize) -> (r: Bucket)
        requires
            q < self.table().len(),
        ensures
            r == self.table()[q as int],
    {
        self.buckets[q]
    }

    /// The bucket at step `step` of `h`'s probe sequence.
    pub fn probe_slot(&self, h: u64, step: usize) -> (r: usize)
        requires
            self.wf(),
            step < self.table().len(),
        ensures
            r == slot(h, step as nat, self.table().len()),
            r < self.table().len(),
    {
        let bc = self.buckets.len();
        let x = (h % (bc as u64)) as usize + step;
        if x >= bc {
            x - bc
        } else {
            x
        }
    }

    /// The next step, from `step` on, whose bucket holds hash `h`; nothing
    /// once an empty bucket or the end of the probe sequence is reached.
    pub fn probe(&self, h: u64, step: usize) -> (r: Option<usize>)
        requires
            self.wf(),
        ensures
            match r {
                Some(s) => next_candidate(self.table(), h, step as nat) == Some(s as nat)
                    && next_candidate(self.table(), h, s as nat) == Some(s as nat),
                None => next_candidate(self.table(), h, step as nat) is None,
            },
    {
        let bc = self.buckets.len();
        let mut s = step;
        while s < bc
            invariant
                self.wf(),
                bc == self.table().len(),
                step <= s,
                next_candidate(self.table(), h, step as nat) == next_candidate(
                    self.table(),
                    h,
                    s as nat,
                ),
            decreases bc - s,
        {
            let q = self.probe_slot(h, s);
            let stored = self.buckets[q].key_hash;
            if stored == 0 {
                return None;
            }
            if stored == h {
                return Some(s);
            }
            s = s + 1;
        }
        None
    }

    /// The entry count that the header declares.
    pub fn len(&self) -> (r: usize)
        ensures
            r == self.count(),
    {
        self.entry_count
    }

    /// The decision after reading the key stored at candidate step `step` of
    /// a lookup for `key` (hash `h`): the bucket there holds `key`, or the
    /// next candidate step to read, or the key is absent. For any file whose
    /// record at that bucket holds `stored_key`, the lookup from `step` gives
    /// what the outcome says.
    pub fn after_candidate(&self, key: &[u8], h: u64, step: usize, stored_key: &[u8]) -> (r:
        ProbeOutcome)
        requires
            self.wf(),
            next_candidate(self.table(), h, step as nat) == Some(step as nat),
        ensures
            (r == ProbeOutcome::Found) == (stored_key@ == key@),
            r matches ProbeOutcome::Next(s) ==> step < s && next_candidate(self.table(), h, s as nat)
                == Some(s as nat),
            forall|data: Seq<u8>|
                #![trigger hash_find(self.table(), data, key@, h, step as nat)]
                record_key_at(data, self.table()[slot(h, step as nat, self.table().len()) as int].offset as nat)
                    == Ok::<Seq<u8>, StoreError>(stored_key@) ==> hash_find(
                    self.table(),
                    data,
                    key@,
                    h,
                    step as nat,
                ) == match r {
                    ProbeOutcome::Found => Ok(Some(
                        self.table()[slot(h, step as nat, self.table().len()) as int],
                    )),
                    ProbeOutcome::Next(s) => hash_find(self.table(), data, key@, h, s as nat),
                    ProbeOutcome::Absent => Ok::<Option<Bucket>, StoreError>(None),
                },
    {
        proof {
            lemma_next_candidate_at(self.table(), h, step as nat);
        }
        if let core::cmp::Ordering::Equal = crate::codec::compare_bytes(stored_key, key) {
            return ProbeOutcome::Found;
        }
        let next = self.probe(h, step + 1);
        proof {
            let t = self.table();
            let b = t[slot(h, step as nat, t.len()) as int];
            lemma_find_skip(t, Seq::empty(), key@, h, (step + 1) as nat);
            assert forall|data: Seq<u8>|
                record_key_at(data, b.offset as nat) == Ok::<Seq<u8>, StoreError>(stored_key@)
                    implies #[trigger] hash_find(t, data, key@, h, step as nat) == match next {
                    Some(s) => hash_find(t, data, key@, h, s as nat),
                    None => Ok::<Option<Bucket>, StoreError>(None),
                } by {
                lemma_find_skip(t, data, key@, h, (step + 1) as nat);
                assert(hash_find(t, data, key@, h, step as nat) == hash_find(
                    t,
                    data,
                    key@,
                    h,
                    (step + 1) as nat,
                ));
            }
        }
        match next {
            Some(s) => ProbeOutcome::Next(s),
            None => ProbeOutcome::Absent,
        }
    }

    /// The first non-empty bucket at slot `q` or after it; the key listing
    /// from `q` on is the listing from that bucket on, or empty when none is left.
    pub fn next_occupied(&self, q: usize) -> (r: Option<usize>)
        ensures
            match r {
                Some(q2) => q <= q2 < self.table().len() && self.table()[q2 as int].key_hash != 0
                    && forall|data: Seq<u8>| #[trigger]
                    keys_from(self.table(), data, q as nat) == keys_from(
                        self.table(),
                        data,
                        q2 as nat,
                    ),
                None => forall|data: Seq<u8>| #[trigger]
                    keys_from(self.table(), data, q as nat) == Ok::<Seq<Seq<u8>>, StoreError>(
                        Seq::empty(),
                    ),
            },
    {
        let mut i = q;
        while i < self.buckets.len()
            invariant
                q <= i,
                forall|data: Seq<u8>| #[trigger]
                    keys_from(self.table(), data, q as nat) == keys_from(self.table(), data, i as nat),
            decreases self.buckets@.len() - i,
        {
            if self.buckets[i].key_hash != 0 {
                return Some(i);
            }
            proof {
                assert forall|data: Seq<u8>| #[trigger]
                    keys_from(self.table(), data, q as nat) == keys_from(
                        self.table(),
                        data,
                        (i + 1) as nat,
                    ) by {
                    assert(keys_from(self.table(), data, i as nat) == keys_from(
                        self.table(),
                        data,
                        (i + 1) as nat,
                    ));
                }
            }
            i = i + 1;
        }
        proof {
            assert forall|data: Seq<u8>| #[trigger]
                keys_from(self.table(), data, q as nat) == Ok::<Seq<Seq<u8>>, StoreError>(
                    Seq::empty(),
                ) by {
                assert(keys_from(self.table(), data, i as nat) == Ok::<Seq<Seq<u8>>, StoreError>(
                    Seq::empty(),
                ));
            }
        }
        None
    }
}

/// What a lookup decides after checking the key stored at a candidate bucket.
#[derive(Debug, Clone, Copy, PartialEq, Eq, Structural)]
pub enum ProbeOutcome {
    /// The candidate bucket holds the key.
    Found,
    /// Read the key at this later candidate step next.
    Next(usize),
    /// No bucket holds the key.
    Absent,
}

proof fn lemma_next_candidate_at(t: Seq<Bucket>, h: u64, step: nat)
    requires
        next_candidate(t, h, step) == Some(step),
    ensures
        step < t.len(),
        t[slot(h, step, t.len()) as int].key_hash == h,
        t[slot(h, step, t.len()) as int].key_hash != 0,
{
    lemma_find_skip(t, Seq::empty(), Seq::empty(), h, step);
}

proof fn lemma_find_skip(t: Seq<Bucket>, data: Seq<u8>, key: Seq<u8>, h: u64, step: nat)
    ensures
        match next_candidate(t, h, step) {
            None => hash_find(t, data, key, h, step) == Ok::<Option<Bucket>, StoreError>(None),
            Some(s) => step <= s < t.len() && t[slot(h, s, t.len()) as int].key_hash == h
                && hash_find(t, data, key, h, step) == hash_find(t, data, key, h, s),
        },
    decreases t.len() - step,
{
    if step < t.len() {
        let b = t[slot(h, step, t.len()) as int];
        if b.key_hash != 0 && b.key_hash != h {
            lemma_find_skip(t, data, key, h, step + 1);
        }
    }
}

/// A sealed hash file whose payload heap is read from the file's bytes.
pub struct HashDatStore<'a> {
    index: HashIndex,
    data: &'a [u8],
}

impl<'a> HashDatStore<'a> {
    /// The bytes of the sealed file.
    pub closed spec fn data(&self) -> Seq<u8> {
        self.data@
    }

    /// The bucket array held in memory.
    pub closed spec fn table(&self) -> Seq<Bucket> {
        self.index.table()
    }

    /// The bucket array is the one the file holds.
    pub closed spec fn wf(&self) -> bool {
        &&& self.index.wf()
        &&& hash_layout(self.data@) matches Ok(f) && self.index.table() == parse_buckets(
            self.data@,
            f.0,
        ) && self.index.count() == f.2
    }

    /// The bucket holding `key`, found by linear probing and a check of the
    /// record's key on each hash match.
    fn find_key(&self, key: &[u8]) -> (r: Result<Option<Bucket>, StoreError>)
        requires
            self.wf(),
        ensures
            r == hash_find(self.table(), self.data(), key@, key_hash(key@), 0),
    {
        let h = hash_key(key);
        let mut step: usize = 0;
        let bc = self.index.bucket_count();
        loop
            invariant
                self.wf(),
                bc == self.table().len(),
                h == key_hash(key@),
                hash_find(self.table(), self.data(), key@, h, 0) == hash_find(
                    self.table(),
                    self.data(),
                    key@,
                    h,
                    step as nat,
                ),
            decreases bc - step,
        {
            proof {
                lemma_find_skip(self.table(), self.data(), key@, h, step as nat);
            }
            match self.index.probe(h, step) {
                None => {
                    return Ok(None);
                },
                Some(s) => {
                    let q = self.index.probe_slot(h, s);
                    let b = self.index.bucket(q);
                    let size = self.data.len() as u64;
                    if b.offset > size || 4 > size - b.offset {
                        return Err(StoreError::Truncated);
                    }
                    let off = b.offset as usize;
                    let klen = read_le(self.data, off, 4);
                    if klen > (size - b.offset - 4) {
                        return Err(StoreError::Truncated);
                    }
                    let stored = slice_subrange(self.data, off + 4, off + 4 + klen as usize);
                    if let core::cmp::Ordering::Equal = crate::codec::compare_bytes(stored, key) {
                        return Ok(Some(b));
                    }
                    step = s + 1;
                },
            }
        }
    }
}

impl<'a> BlobStore<'a> for HashDatStore<'a> {
    open spec fn source(&self) -> Seq<u8> {
        self.data()
    }

    open spec fn valid(&self) -> bool {
        self.wf()
    }

    open spec fn lookup_of(&self, key: Seq<u8>) -> Result<Option<Seq<u8>>, StoreError> {
        hash_get(self.table(), self.data(), key)
    }

    open spec fn listing(&self) -> Result<Seq<Seq<u8>>, StoreError> {
        keys_from(self.table(), self.data(), 0)
    }

    open spec fn count(&self) -> nat {
        hash_layout(self.data())->Ok_0.2
    }

    /// Opens the sealed file `data`: checks the header and loads the buckets.
    fn open(data: &'a [u8]) -> (r: Result<Self, StoreError>)
        ensures
            match r {
                Ok(s) => hash_layout(data@) matches Ok(f) && s.table() == parse_buckets(data@, f.0),
                Err(e) => hash_layout(data@) == Err::<(nat, nat, nat), StoreError>(e),
            },
    {
        match HashIndex::open(data) {
            Ok(index) => Ok(HashDatStore { index, data }),
            Err(e) => Err(e),
        }
    }

    /// The value stored under `key`, or nothing when no record has that key.
    fn get(&self, key: &[u8]) -> (r: Result<Option<Vec<u8>>, StoreError>) {
        match self.find_key(key) {
            Err(e) => Err(e),
            Ok(None) => Ok(None),
            Ok(Some(b)) => match record_slice(self.data, b) {
                Err(e) => Err(e),
                Ok(rec) => match value_of_record(rec) {
                    Err(e) => Err(e),
                    Ok(v) => Ok(Some(v)),
                },
            },
        }
    }

    /// The key of every non-empty bucket's record, in bucket order.
    fn keys(&self) -> (r: Result<Vec<Vec<u8>>, StoreError>) {
        let bc = self.index.bucket_count();
        let mut out: Vec<Vec<u8>> = Vec::with_capacity(self.index.len());
        let mut q: usize = 0;
        proof {
            assert(out@.map_values(|k: Vec<u8>| k@) =~= Seq::<Seq<u8>>::empty());
        }
        while q < bc
            invariant
                self.wf(),
                bc == self.table().len(),
                q <= bc,
                keys_from(self.table(), self.data(), 0) == match keys_from(
                    self.table(),
                    self.data(),
                    q as nat,
                ) {
                    Ok(ks) => Ok(out@.map_values(|k: Vec<u8>| k@) + ks),
                    Err(e) => Err(e),
                },
            decreases bc - q,
        {
            let b = self.index.bucket(q);
            if b.key_hash != 0 {
                let rec = match record_slice(self.data, b) {
                    Ok(rec) => rec,
                    Err(e) => {
                        return Err(e);
                    },
                };
                let k = match key_of_record(rec) {
                    Ok(k) => k,
                    Err(e) => {
                        return Err(e);
                    },
                };
                let ghost before = out@.map_values(|k: Vec<u8>| k@);
                out.push(slice_to_vec(k));
                proof {
                    assert(out@.map_values(|k: Vec<u8>| k@) =~= before.push(k@));
                    match keys_from(self.table(), self.data(), (q + 1) as nat) {
                        Ok(ks) => {
                            assert(before + (seq![k@] + ks) =~= before.push(k@) + ks);
                        },
                        Err(e) => {},
                    }
                }
            }
            q = q + 1;
        }
        proof {
            assert(out@.map_values(|k: Vec<u8>| k@) + Seq::<Seq<u8>>::empty() =~= out@.map_values(
                |k: Vec<u8>| k@,
            ));
        }
        Ok(out)
    }

    /// The entry count that the header declares.
    fn len(&self) -> (r: usize) {
        self.index.len()
    }

    /// Name used in reports.
    fn backend_name() -> (r: &'static str)
        ensures
            r@ == "Custom Offset File Format"@,
    {
        proof {
            reveal_strlit("Custom Offset File Format");
        }
        "Custom Offset File Format"
    }
}

proof fn lemma_buckets_image(data: Seq<u8>, t: Seq<Bucket>, pos: int)
    requires
        0 <= pos,
        pos + 24 * t.len() <= data.len(),
        data.subrange(pos, pos + 24 * t.len()) == buckets_image(t),
    ensures
        buckets_image(t).len() == 24 * t.len(),
        forall|q: int| 0 <= q < t.len() ==> #[trigger] bucket_at(data, pos + 24 * q) == t[q],
    decreases t.len(),
{
    lemma_buckets_len(t);
    if t.len() > 0 {
        let d = t.drop_last();
        let n = t.len() as int;
        lemma_buckets_len(d);
        let img = buckets_image(t);
        assert(img == buckets_image(d) + bucket_image(t.last()));
        assert(data.subrange(pos, pos + 24 * d.len()) =~= img.subrange(0, 24 * d.len() as int));
        assert(img.subrange(0, 24 * d.len() as int) =~= buckets_image(d));
        lemma_buckets_image(data, d, pos);
        let b = t.last();
        let base = pos + 24 * (n - 1);
        lemma_le_bytes_len(b.key_hash as nat, 8);
        lemma_le_bytes_len(b.offset as nat, 8);
        lemma_le_bytes_len(b.len as nat, 8);
        lemma_pow256_values();
        lemma_le_round_trip(b.key_hash as nat, 8);
        lemma_le_round_trip(b.offset as nat, 8);
        lemma_le_round_trip(b.len as nat, 8);
        let bi = bucket_image(b);
        assert(data.subrange(base, base + 24) =~= bi) by {
            assert(data.subrange(base, base + 24) =~= img.subrange(24 * (n - 1), 24 * n));
        }
        assert(data.subrange(base, base + 8) =~= bi.subrange(0, 8));
        assert(data.subrange(base + 8, base + 16) =~= bi.subrange(8, 16));
        assert(data.subrange(base + 16, base + 24) =~= bi.subrange(16, 24));
        assert(bi.subrange(0, 8) =~= le_bytes(b.key_hash as nat, 8));
        assert(bi.subrange(8, 16) =~= le_bytes(b.offset as nat, 8));
        assert(bi.subrange(16, 24) =~= le_bytes(b.len as nat, 8));
        assert(bucket_at(data, base) == b);
        assert forall|q: int| 0 <= q < t.len() implies #[trigger] bucket_at(data, pos + 24 * q)
            == t[q] by {
            if q < n - 1 {
                assert(d[q] == t[q]);
                assert(bucket_at(data, pos + 24 * q) == d[q]);
            }
        }
    }
}

proof fn lemma_buckets_len(t: Seq<Bucket>)
    ensures
        buckets_image(t).len() == 24 * t.len(),
    decreases t.len(),
{
    if t.len() > 0 {
        lemma_buckets_len(t.drop_last());
        let b = t.last();
        lemma_le_bytes_len(b.key_hash as nat, 8);
        lemma_le_bytes_len(b.offset as nat, 8);
        lemma_le_bytes_len(b.len as nat, 8);
    }
}

proof fn lemma_records_image(e: Seq<(Seq<u8>, Seq<u8>)>, j: int)
    requires
        0 <= j < e.len(),
    ensures
        records_image(e).len() == records_size(e),
        records_size(e.take(j)) + record_size(e[j]) <= records_size(e),
        records_image(e).subrange(
            records_size(e.take(j)) as int,
            (records_size(e.take(j)) + record_size(e[j])) as int,
        ) == record_image(e[j]),
    decreases e.len(),
{
    lemma_records_len(e);
    let d = e.drop_last();
    lemma_records_len(d);
    lemma_le_bytes_len(e.last().0.len() as nat, 4);
    if j == e.len() - 1 {
        assert(e.take(j) =~= d);
        assert(records_image(e).subrange(records_size(d) as int, records_size(e) as int)
            =~= record_image(e.last()));
    } else {
        assert(e.take(j) =~= d.take(j));
        assert(d[j] == e[j]);
        lemma_records_image(d, j);
        assert(records_image(e).subrange(
            records_size(e.take(j)) as int,
            (records_size(e.take(j)) + record_size(e[j])) as int,
        ) =~= records_image(d).subrange(
            records_size(d.take(j)) as int,
            (records_size(d.take(j)) + record_size(d[j])) as int,
        ));
    }
}

proof fn lemma_records_len(e: Seq<(Seq<u8>, Seq<u8>)>)
    ensures
        records_image(e).len() == records_size(e),
    decreases e.len(),
{
    if e.len() > 0 {
        lemma_records_len(e.drop_last());
        lemma_le_bytes_len(e.last().0.len() as nat, 4);
    }
}

/// Every entry's record, read through its bucket, holds its key and value.
pub open spec fn records_readable(e: Seq<(Seq<u8>, Seq<u8>)>, hs: nat, data: Seq<u8>) -> bool {
    forall|m: int|
        0 <= m < e.len() ==> {
            &&& record_key_at(data, #[trigger] entry_bucket(e, m, hs).offset as nat)
                == Ok::<Seq<u8>, StoreError>(e[m].0)
            &&& record_bytes(data, entry_bucket(e, m, hs)) matches Ok(rec) && record_value(rec)
                == Ok::<Seq<u8>, StoreError>(e[m].1) && record_key(rec) == Ok::<
                Seq<u8>,
                StoreError,
            >(e[m].0)
            &&& entry_bucket(e, m, hs).key_hash == key_hash(e[m].0)
        }
}

proof fn lemma_records_readable(e: Seq<(Seq<u8>, Seq<u8>)>, hs: nat, data: Seq<u8>)
    requires
        keys_fit(e),
        hs + records_size(e) <= data.len(),
        hs + records_size(e) <= u64::MAX,
        data.subrange(hs as int, (hs + records_size(e)) as int) == records_image(e),
    ensures
        records_readable(e, hs, data),
{
    assert forall|m: int| 0 <= m < e.len() implies {
        &&& record_key_at(data, #[trigger] entry_bucket(e, m, hs).offset as nat) == Ok::<
            Seq<u8>,
            StoreError,
        >(e[m].0)
        &&& record_bytes(data, entry_bucket(e, m, hs)) matches Ok(rec) && record_value(rec)
            == Ok::<Seq<u8>, StoreError>(e[m].1) && record_key(rec) == Ok::<Seq<u8>, StoreError>(
            e[m].0,
        )
        &&& entry_bucket(e, m, hs).key_hash == key_hash(e[m].0)
    } by {
        lemma_records_image(e, m);
        let k = e[m].0;
        let v = e[m].1;
        let off = hs + records_size(e.take(m));
        let b = entry_bucket(e, m, hs);
        assert(b.offset == off && b.len == record_size(e[m]));
        let ri = record_image(e[m]);
        lemma_le_bytes_len(k.len() as nat, 4);
        lemma_pow256_values();
        lemma_le_round_trip(k.len() as nat, 4);
        assert(data.subrange(off as int, (off + record_size(e[m])) as int) =~= ri) by {
            assert(data.subrange(off as int, (off + record_size(e[m])) as int) =~= records_image(
                e,
            ).subrange(
                records_size(e.take(m)) as int,
                (records_size(e.take(m)) + record_size(e[m])) as int,
            ));
        }
        assert(data.subrange(off as int, off + 4int) =~= ri.subrange(0, 4));
        assert(ri.subrange(0, 4) =~= le_bytes(k.len() as nat, 4));
        assert(data.subrange(off + 4int, off + 4int + k.len()) =~= ri.subrange(4, 4int + k.len()));
        assert(ri.subrange(4, 4int + k.len()) =~= k);
        assert(ri.subrange(4int + k.len(), ri.len() as int) =~= v);
    }
}

proof fn lemma_find_hit(
    e: Seq<(Seq<u8>, Seq<u8>)>,
    bc: nat,
    hs: nat,
    data: Seq<u8>,
    j: int,
    step: nat,
)
    requires
        table_inv(e, bc, hs, table_for(e, bc, hs)),
        unique_keys(e),
        records_readable(e, hs, data),
        0 <= j < e.len(),
        step <= placed_step(e, j, bc, hs)->Some_0,
    ensures
        hash_find(table_for(e, bc, hs), data, e[j].0, key_hash(e[j].0), step) == Ok::<
            Option<Bucket>,
            StoreError,
        >(Some(entry_bucket(e, j, hs))),
    decreases placed_step(e, j, bc, hs)->Some_0 - step,
{
    let t = table_for(e, bc, hs);
    let h = key_hash(e[j].0);
    let sj = placed_step(e, j, bc, hs)->Some_0;
    assert(placed_step(e, j, bc, hs) is Some);
    assert(entry_bucket(e, j, hs).key_hash == h);
    lemma_slot_facts(h, bc);
    if step < sj {
        let q = slot(h, step, bc);
        assert(t[q as int].key_hash != 0);
        if t[q as int].key_hash == h {
            let m = choose|m: int| 0 <= m < e.len() && #[trigger] placed_slot(e, m, bc, hs) == q;
            assert(placed_step(e, m, bc, hs) is Some);
            assert(t[q as int] == entry_bucket(e, m, hs));
            assert(record_key_at(data, entry_bucket(e, m, hs).offset as nat) == Ok::<
                Seq<u8>,
                StoreError,
            >(e[m].0));
            if e[m].0 == e[j].0 {
                assert(m == j);
                assert(false);
            }
        }
        lemma_find_hit(e, bc, hs, data, j, step + 1);
    } else {
        assert(t[slot(h, sj, bc) as int] == entry_bucket(e, j, hs));
    }
}

proof fn lemma_find_miss(
    e: Seq<(Seq<u8>, Seq<u8>)>,
    bc: nat,
    hs: nat,
    data: Seq<u8>,
    key: Seq<u8>,
    step: nat,
)
    requires
        table_inv(e, bc, hs, table_for(e, bc, hs)),
        records_readable(e, hs, data),
        !has_key(e, key),
        bc > 0,
    ensures
        hash_find(table_for(e, bc, hs), data, key, key_hash(key), step) == Ok::<
            Option<Bucket>,
            StoreError,
        >(None),
    decreases bc - step,
{
    let t = table_for(e, bc, hs);
    let h = key_hash(key);
    if step < bc {
        lemma_slot_facts(h, bc);
        let q = slot(h, step, bc);
        if t[q as int].key_hash != 0 {
            if t[q as int].key_hash == h {
                let m = choose|m: int| 0 <= m < e.len() && #[trigger] placed_slot(e, m, bc, hs) == q;
                assert(placed_step(e, m, bc, hs) is Some);
                assert(t[q as int] == entry_bucket(e, m, hs));
                assert(record_key_at(data, entry_bucket(e, m, hs).offset as nat) == Ok::<
                    Seq<u8>,
                    StoreError,
                >(e[m].0));
                assert(e[m].0 != key);
            }
            lemma_find_miss(e, bc, hs, data, key, step + 1);
        }
    }
}

/// The file that `finish` lays out for any pairs `e`, repeated keys
/// included, opens with one declared entry per insert (`e.len()`) and with
/// the bucket array that insertion built.
#[verifier::rlimit(40)]
pub proof fn lemma_hash_opens(e: Seq<(Seq<u8>, Seq<u8>)>)
    requires
        keys_fit(e),
        hash_image_fits(e),
    ensures
        ({
            let bc = bucket_count_for(e.len());
            let hs = 64 + 24 * bc;
            let data = hash_image(e);
            &&& hash_layout(data) == Ok::<(nat, nat, nat), StoreError>((bc, hs, e.len()))
            &&& parse_buckets(data, bc) == table_for(e, bc, hs)
            &&& table_inv(e, bc, hs, table_for(e, bc, hs))
            &&& records_readable(e, hs, data)
        }),
{
    let n = e.len();
    let bc = bucket_count_for(n);
    let hs = 64 + 24 * bc;
    let t = table_for(e, bc, hs);
    let data = hash_image(e);
    assert(n <= bc);
    lemma_table_inv(e, bc, hs);
    lemma_buckets_len(t);
    lemma_records_len(e);
    let body = buckets_image(t) + records_image(e);
    lemma_header_round_trip(hash_magic(), bc as u64, hs as u64, n as u64, body);
    assert(data =~= header_image(hash_magic(), bc, hs, n) + body);
    assert(data.subrange(64, 64 + 24 * t.len() as int) =~= buckets_image(t));
    lemma_buckets_image(data, t, 64);
    assert(parse_buckets(data, bc) =~= t);
    assert(data.subrange(hs as int, (hs + records_size(e)) as int) =~= records_image(e));
    lemma_records_readable(e, hs, data);
}

/// Miss correctness with repeated keys allowed: in the file that `finish`
/// lays out for any pairs `e`, a lookup of a key that no pair has finds nothing.
pub proof fn lemma_hash_miss(e: Seq<(Seq<u8>, Seq<u8>)>, key: Seq<u8>)
    requires
        keys_fit(e),
        hash_image_fits(e),
        !has_key(e, key),
    ensures
        ({
            let bc = bucket_count_for(e.len());
            let hs = 64 + 24 * bc;
            hash_get(table_for(e, bc, hs), hash_image(e), key) == Ok::<
                Option<Seq<u8>>,
                StoreError,
            >(None)
        }),
{
    let bc = bucket_count_for(e.len());
    lemma_hash_opens(e);
    lemma_find_miss(e, bc, 64 + 24 * bc, hash_image(e), key, 0);
}

/// Round trip: the file that `finish` lays out for pairs `e` with distinct
/// keys opens with `e.len()` entries and the bucket array that insertion
/// built, and a lookup of any key gives the value that `e` pairs with it
/// (nothing for a key that `e` lacks), whatever probe chains the hashes made.
pub proof fn lemma_hash_round_trip(e: Seq<(Seq<u8>, Seq<u8>)>, key: Seq<u8>)
    requires
        unique_keys(e),
        keys_fit(e),
        hash_image_fits(e),
    ensures
        ({
            let bc = bucket_count_for(e.len());
            let hs = 64 + 24 * bc;
            let data = hash_image(e);
            &&& hash_layout(data) == Ok::<(nat, nat, nat), StoreError>((bc, hs, e.len()))
            &&& parse_buckets(data, bc) == table_for(e, bc, hs)
            &&& hash_get(table_for(e, bc, hs), data, key) == Ok::<Option<Seq<u8>>, StoreError>(
                lookup(e, key),
            )
        }),
{
    let bc = bucket_count_for(e.len());
    let hs = 64 + 24 * bc;
    let data = hash_image(e);
    lemma_hash_opens(e);
    if has_key(e, key) {
        let j = choose|j: int| 0 <= j < e.len() && #[trigger] e[j].0 == key;
        lemma_lookup_at(e, j);
        lemma_find_hit(e, bc, hs, data, j, 0);
    } else {
        lemma_find_miss(e, bc, hs, data, key, 0);
    }
}

#[verifier::rlimit(100)]
#[verifier::spinoff_prover]
proof fn lemma_keys_listed(
    e: Seq<(Seq<u8>, Seq<u8>)>,
    bc: nat,
    hs: nat,
    data: Seq<u8>,
    q: nat,
)
    requires
        table_inv(e, bc, hs, table_for(e, bc, hs)),
        records_readable(e, hs, data),
        bc > 0,
    ensures
        keys_from(table_for(e, bc, hs), data, q) matches Ok(ks) && forall|k: Seq<u8>|
            #[trigger] ks.contains(k) <==> exists|m: int|
                0 <= m < e.len() && placed_slot(e, m, bc, hs) >= q && #[trigger] e[m].0 == k,
    decreases bc - q,
{
    let t = table_for(e, bc, hs);
    if q >= bc {
        assert forall|m: int| 0 <= m < e.len() implies #[trigger] placed_slot(e, m, bc, hs) < bc by {
            assert(placed_step(e, m, bc, hs) is Some);
            lemma_slot_facts(key_hash(e[m].0), bc);
        }
    } else {
        lemma_keys_listed(e, bc, hs, data, q + 1);
        let rest = keys_from(t, data, q + 1)->Ok_0;
        if t[q as int].key_hash == 0 {
            assert forall|k: Seq<u8>| #[trigger] rest.contains(k) <==> exists|m: int|
                0 <= m < e.len() && placed_slot(e, m, bc, hs) >= q && #[trigger] e[m].0 == k by {
                if exists|m: int|
                    0 <= m < e.len() && placed_slot(e, m, bc, hs) >= q && #[trigger] e[m].0 == k {
                    let m = choose|m: int|
                        0 <= m < e.len() && placed_slot(e, m, bc, hs) >= q && #[trigger] e[m].0
                            == k;
                    assert(placed_step(e, m, bc, hs) is Some);
                    assert(placed_slot(e, m, bc, hs) != q);
                }
            }
        } else {
            let m0 = choose|m: int| 0 <= m < e.len() && #[trigger] placed_slot(e, m, bc, hs) == q;
            assert(placed_step(e, m0, bc, hs) is Some);
            assert(t[q as int] == entry_bucket(e, m0, hs));
            assert(record_bytes(data, entry_bucket(e, m0, hs)) matches Ok(rec) && record_key(rec)
                == Ok::<Seq<u8>, StoreError>(e[m0].0));
            let ks = seq![e[m0].0] + rest;
            assert(keys_from(t, data, q) == Ok::<Seq<Seq<u8>>, StoreError>(ks));
            assert forall|k: Seq<u8>| #[trigger] ks.contains(k) <==> exists|m: int|
                0 <= m < e.len() && placed_slot(e, m, bc, hs) >= q && #[trigger] e[m].0 == k by {
                if ks.contains(k) {
                    let i = choose|i: int| 0 <= i < ks.len() && ks[i] == k;
                    if i == 0 {
                        assert(e[m0].0 == k);
                    } else {
                        assert(rest[i - 1] == k);
                        assert(rest.contains(k));
                    }
                }
                if exists|m: int|
                    0 <= m < e.len() && placed_slot(e, m, bc, hs) >= q && #[trigger] e[m].0 == k {
                    let m = choose|m: int|
                        0 <= m < e.len() && placed_slot(e, m, bc, hs) >= q && #[trigger] e[m].0
                            == k;
                    assert(placed_step(e, m, bc, hs) is Some);
                    if placed_slot(e, m, bc, hs) == q {
                        assert(entry_bucket(e, m, hs) == entry_bucket(e, m0, hs));
                        assert(e[m].0 == e[m0].0);
                        assert(ks[0] == k);
                    } else {
                        assert(rest.contains(k));
                        let i = choose|i: int| 0 <= i < rest.len() && rest[i] == k;
                        assert(ks[i + 1] == k);
                    }
                }
            }
        }
    }
}

/// Listing the keys of the file that `finish` lays out for pairs `e` with
/// distinct keys succeeds, and a key is listed exactly when `e` holds it.
pub proof fn lemma_hash_keys(e: Seq<(Seq<u8>, Seq<u8>)>)
    requires
        unique_keys(e),
        keys_fit(e),
        hash_image_fits(e),
    ensures
        ({
            let bc = bucket_count_for(e.len());
            let hs = 64 + 24 * bc;
            keys_from(table_for(e, bc, hs), hash_image(e), 0) matches Ok(ks) && forall|
                k: Seq<u8>,
            | #[trigger] ks.contains(k) <==> has_key(e, k)
        }),
{
    let n = e.len();
    let bc = bucket_count_for(n);
    let hs = 64 + 24 * bc;
    let t = table_for(e, bc, hs);
    let data = hash_image(e);
    lemma_hash_opens(e);
    lemma_keys_listed(e, bc, hs, data, 0);
    let ks = keys_from(t, data, 0)->Ok_0;
    assert forall|k: Seq<u8>| #[trigger] ks.contains(k) <==> has_key(e, k) by {
        if has_key(e, k) {
            let j = choose|j: int| 0 <= j < e.len() && #[trigger] e[j].0 == k;
            assert(placed_slot(e, j, bc, hs) >= 0);
        }
    }
}

/// Two stores opened on the same sealed bytes hold the same buckets, so they
/// answer every lookup and listing alike and declare the same entry count.
pub proof fn lemma_hash_open_twice(a: HashDatStore, b: HashDatStore, key: Seq<u8>)
    requires
        a.wf(),
        b.wf(),
        a.data() == b.data(),
    ensures
        a.table() == b.table(),
        hash_get(a.table(), a.data(), key) == hash_get(b.table(), b.data(), key),
        keys_from(a.table(), a.data(), 0) == keys_from(b.table(), b.data(), 0),
        hash_layout(a.data()) == hash_layout(b.data()),
{
}

proof fn lemma_keys_none(t: Seq<Bucket>, data: Seq<u8>, q: nat)
    requires
        forall|i: int| 0 <= i < t.len() ==> (#[trigger] t[i]).key_hash == 0,
    ensures
        keys_from(t, data, q) == Ok::<Seq<Seq<u8>>, StoreError>(Seq::empty()),
    decreases t.len() - q,
{
    if q < t.len() {
        lemma_keys_none(t, data, q + 1);
    }
}

/// An empty builder seals into a file that declares no entries, lists no
/// keys and finds nothing.
pub proof fn lemma_hash_empty(key: Seq<u8>)
    ensures
        ({
            let e = Seq::<(Seq<u8>, Seq<u8>)>::empty();
            let data = hash_image(e);
            let t = table_for(e, 1, 88);
            &&& hash_layout(data) == Ok::<(nat, nat, nat), StoreError>((1, 88, 0))
            &&& parse_buckets(data, 1) == t
            &&& keys_from(t, data, 0) == Ok::<Seq<Seq<u8>>, StoreError>(Seq::empty())
            &&& hash_get(t, data, key) == Ok::<Option<Seq<u8>>, StoreError>(None)
        }),
{
    let e = Seq::<(Seq<u8>, Seq<u8>)>::empty();
    assert(unique_keys(e) && keys_fit(e) && hash_image_fits(e));
    lemma_hash_round_trip(e, key);
    lemma_keys_none(table_for(e, 1, 88), hash_image(e), 0);
}

} // verus!
