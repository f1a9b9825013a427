//! The flat sorted-index store.
//!
//! File layout: the 64-byte header (tag `BTREEIDX`, index start, heap start,
//! entry count), then one index entry per pair in ascending key order (key
//! length as 4 bytes, key, payload offset as 8 bytes, payload length as 8
//! bytes), then the payload heap: the values, concatenated in the same order.
use crate::codec::{
    bytes_lt, bytes_order, compare_bytes, le_bytes, le_value, lemma_le_bytes_len,
    lemma_le_round_trip, lemma_order_flip, lemma_order_refl, lemma_order_trans, lemma_pow256_values,
    push_le, read_le,
};
use crate::layout::{
    append_bytes, header_fields, header_image, lemma_header_round_trip, push_header, read_header,
    HEADER_SIZE,
};
use crate::store::{
    has_key, keys_ascending, keys_fit, keys_of, lemma_ascending_unique, lemma_lookup_at, lookup,
    BlobStore, BlobStoreBuilder, StoreError,
};
use core::cmp::Ordering;
use vstd::prelude::*;
use vstd::slice::{slice_subrange, slice_to_vec};

verus! {

/// The format tag of a flat store file: `BTREEIDX`.
pub open spec fn flat_magic() -> Seq<u8> {
    seq![0x42u8, 0x54u8, 0x52u8, 0x45u8, 0x45u8, 0x49u8, 0x44u8, 0x58u8]
}

/// One index entry: key length, key, payload offset, payload length.
pub open spec fn entry_image(key: Seq<u8>, off: nat, len: nat) -> Seq<u8> {
    le_bytes(key.len(), 4) + key + le_bytes(off, 8) + le_bytes(len, 8)
}

/// Size of the index region for the pairs `e`.
pub open spec fn index_size(e: Seq<(Seq<u8>, Seq<u8>)>) -> nat
    decreases e.len(),
{
    if e.len() == 0 {
        0
    } else {
        20 + e[0].0.len() + index_size(e.drop_first())
    }
}

/// Total length of the values of `e`.
pub open spec fn heap_size(e: Seq<(Seq<u8>, Seq<u8>)>) -> nat
    decreases e.len(),
{
    if e.len() == 0 {
        0
    } else {
        e[0].1.len() + heap_size(e.drop_first())
    }
}

/// The index region for `e` when the first value sits at file offset `off`.
pub open spec fn index_image(e: Seq<(Seq<u8>, Seq<u8>)>, off: nat) -> Seq<u8>
    decreases e.len(),
{
    if e.len() == 0 {
        Seq::empty()
    } else {
        entry_image(e[0].0, off, e[0].1.len()) + index_image(e.drop_first(), off + e[0].1.len())
    }
}

/// The payload heap for `e`: its values, concatenated.
pub open spec fn heap_image(e: Seq<(Seq<u8>, Seq<u8>)>) -> Seq<u8>
    decreases e.len(),
{
    if e.len() == 0 {
        Seq::empty()
    } else {
        e[0].1 + heap_image(e.drop_first())
    }
}

/// The sealed flat file for the pairs `e`, taken in the order given.
pub open spec fn flat_image(e: Seq<(Seq<u8>, Seq<u8>)>) -> Seq<u8> {
    let heap_start = 64 + index_size(e);
    header_image(flat_magic(), 64, heap_start, e.len()) + index_image(e, heap_start) + heap_image(
        e,
    )
}

/// The sealed flat file for `e` has a length that memory addresses can reach.
pub open spec fn flat_image_fits(e: Seq<(Seq<u8>, Seq<u8>)>) -> bool {
    64 + index_size(e) + heap_size(e) <= usize::MAX
}

proof fn lemma_skip_step(e: Seq<(Seq<u8>, Seq<u8>)>, i: int)
    requires
        0 <= i < e.len(),
    ensures
        e.skip(i).len() > 0,
        e.skip(i)[0] == e[i],
        e.skip(i).drop_first() == e.skip(i + 1),
{
    assert(e.skip(i).drop_first() =~= e.skip(i + 1));
}

/// Accumulates pairs in ascending key order; a later insert of a key
/// replaces its value.
pub struct BTreeDatStoreBuilder {
    entries: Vec<(Vec<u8>, Vec<u8>)>,
}

impl BTreeDatStoreBuilder {
    /// The pairs accumulated so far, in the order they will be written.
    pub closed spec fn entries(&self) -> Seq<(Seq<u8>, Seq<u8>)> {
        Seq::new(self.entries@.len(), |i: int| (self.entries@[i].0@, self.entries@[i].1@))
    }

    /// Keys ascend strictly and each fits its length prefix.
    pub open spec fn wf(&self) -> bool {
        keys_ascending(self.entries()) && keys_fit(self.entries())
    }
}

impl BlobStoreBuilder for BTreeDatStoreBuilder {
    open spec fn pending(&self) -> Seq<(Seq<u8>, Seq<u8>)> {
        self.entries()
    }

    open spec fn valid(&self) -> bool {
        self.wf()
    }

    open spec fn image_of(e: Seq<(Seq<u8>, Seq<u8>)>) -> Seq<u8> {
        flat_image(e)
    }

    open spec fn fits(e: Seq<(Seq<u8>, Seq<u8>)>) -> bool {
        flat_image_fits(e)
    }

    /// An empty builder.
    fn create() -> (r: Self) {
        let r = BTreeDatStoreBuilder { entries: Vec::new() };
        proof {
            assert(r.entries() =~= Seq::<(Seq<u8>, Seq<u8>)>::empty());
        }
        r
    }

    /// Records `key` with `value`, replacing the value of an equal key.
    fn insert(&mut self, key: &[u8], value: &[u8]) -> (r: Result<(), StoreError>)
        ensures
            key@.len() <= u32::MAX ==> forall|k: Seq<u8>| #[trigger]
                lookup(final(self).entries(), k) == if k == key@ {
                    Some(value@)
                } else {
                    lookup(old(self).entries(), k)
                },
            key@.len() <= u32::MAX ==> final(self).entries().len() == old(self).entries().len()
                + if has_key(old(self).entries(), key@) {
                0int
            } else {
                1int
            },
    {
        if key.len() > u32::MAX as usize {
            return Err(StoreError::KeyTooLong);
        }
        let ghost e = self.entries();
        let mut lo: usize = 0;
        let mut hi: usize = self.entries.len();
        while lo < hi
            invariant
                e == self.entries(),
                e == old(self).entries(),
                keys_ascending(e),
                keys_fit(e),
                key@.len() <= u32::MAX,
                lo <= hi <= e.len(),
                forall|i: int| 0 <= i < lo ==> bytes_lt(#[trigger] e[i].0, key@),
                forall|i: int| hi <= i < e.len() ==> bytes_lt(key@, #[trigger] e[i].0),
            decreases hi - lo,
        {
            let mid = lo + (hi - lo) / 2;
            let c = compare_bytes(self.entries[mid].0.as_slice(), key);
            match c {
                Ordering::Less => {
                    proof {
                        assert forall|i: int| 0 <= i < mid + 1 implies bytes_lt(
                            #[trigger] e[i].0,
                            key@,
                        ) by {
                            if i < mid {
                                lemma_order_trans(e[i].0, e[mid as int].0, key@);
                            }
                        }
                    }
                    lo = mid + 1;
                },
                Ordering::Greater => {
                    proof {
                        lemma_order_flip(e[mid as int].0, key@);
                        assert forall|i: int| mid <= i < e.len() implies bytes_lt(
                            key@,
                            #[trigger] e[i].0,
                        ) by {
                            if mid < i < hi {
                                lemma_order_trans(key@, e[mid as int].0, e[i].0);
                            }
                        }
                    }
                    hi = mid;
                },
                Ordering::Equal => {
                    let k = slice_to_vec(key);
                    let v = slice_to_vec(value);
                    self.entries[mid] = (k, v);
                    proof {
                        assert(e[mid as int].0 == key@);
                        let e2 = e.update(mid as int, (key@, value@));
                        assert(self.entries() =~= e2);
                        lemma_replace(e, mid as int, value@);
                    }
                    return Ok(());
                },
            }
        }
        let k = slice_to_vec(key);
        let v = slice_to_vec(value);
        self.entries.insert(lo, (k, v));
        proof {
            assert(self.entries() =~= e.insert(lo as int, (key@, value@)));
            lemma_insert_at(e, lo as int, key@, value@);
        }
        Ok(())
    }

    /// Lays out the sealed file: header, index entries in key order, then the values.
    fn finish(self) -> (r: Result<Vec<u8>, StoreError>) {
        let ghost e = self.entries();
        let n = self.entries.len();
        let mut isz: usize = 0;
        let mut hsz: usize = 0;
        let mut i: usize = 0;
        proof {
            assert(e.skip(0) =~= e);
        }
        while i < n
            invariant
                e == self.entries(),
                n == e.len(),
                i <= n,
                isz + index_size(e.skip(i as int)) == index_size(e),
                hsz + heap_size(e.skip(i as int)) == heap_size(e),
                64 + isz + hsz <= usize::MAX,
            decreases n - i,
        {
            proof {
                lemma_skip_step(e, i as int);
            }
            let klen = self.entries[i].0.len();
            let vlen = self.entries[i].1.len();
            let room: usize = usize::MAX - 64 - isz - hsz;
            if vlen > room || klen > room - vlen || 20 > room - vlen - klen {
                return Err(StoreError::TooLarge);
            }
            isz = isz + 20 + klen;
            hsz = hsz + vlen;
            i = i + 1;
        }
        proof {
            assert(e.skip(n as int) =~= Seq::<(Seq<u8>, Seq<u8>)>::empty());
        }
        let heap_start: usize = 64 + isz;
        let mut out: Vec<u8> = Vec::with_capacity(heap_start + hsz);
        let magic: Vec<u8> = vec![0x42u8, 0x54u8, 0x52u8, 0x45u8, 0x45u8, 0x49u8, 0x44u8, 0x58u8];
        proof {
            assert(magic@ =~= flat_magic());
        }
        push_header(&mut out, magic.as_slice(), HEADER_SIZE as u64, heap_start as u64, n as u64);
        let ghost header = out@;
        let mut cursor: usize = heap_start;
        let mut j: usize = 0;
        proof {
            assert(e.skip(0) =~= e);
            assert(out@ + index_image(e.skip(0), cursor as nat) =~= header + index_image(
                e,
                heap_start as nat,
            ));
        }
        while j < n
            invariant
                e == self.entries(),
                n == e.len(),
                j <= n,
                out@ + index_image(e.skip(j as int), cursor as nat) == header + index_image(
                    e,
                    heap_start as nat,
                ),
                cursor + heap_size(e.skip(j as int)) == heap_start + heap_size(e),
                heap_start + heap_size(e) <= usize::MAX,
                keys_fit(e),
            decreases n - j,
        {
            proof {
                lemma_skip_step(e, j as int);
            }
            let ghost before = out@;
            let key = self.entries[j].0.as_slice();
            let vlen = self.entries[j].1.len();
            push_le(&mut out, key.len() as u64, 4);
            append_bytes(&mut out, key);
            push_le(&mut out, cursor as u64, 8);
            push_le(&mut out, vlen as u64, 8);
            proof {
                let s = e.skip(j as int);
                assert(out@ =~= before + entry_image(e[j as int].0, cursor as nat, vlen as nat));
                assert(index_image(s, cursor as nat) == entry_image(
                    s[0].0,
                    cursor as nat,
                    s[0].1.len(),
                ) + index_image(s.drop_first(), (cursor + s[0].1.len()) as nat));
                assert(out@ + index_image(e.skip(j + 1), (cursor + vlen) as nat) =~= before
                    + index_image(s, cursor as nat));
            }
            cursor = cursor + vlen;
            j = j + 1;
        }
        proof {
            assert(e.skip(n as int) =~= Seq::<(Seq<u8>, Seq<u8>)>::empty());
            assert(out@ =~= header + index_image(e, heap_start as nat));
            assert(out@ + heap_image(e.skip(0)) =~= header + index_image(e, heap_start as nat)
                + heap_image(e));
        }
        let ghost body = header + index_image(e, heap_start as nat);
        let mut j: usize = 0;
        while j < n
            invariant
                e == self.entries(),
                n == e.len(),
                j <= n,
                out@ + heap_image(e.skip(j as int)) == body + heap_image(e),
            decreases n - j,
        {
            proof {
                lemma_skip_step(e, j as int);
            }
            let ghost before = out@;
            append_bytes(&mut out, self.entries[j].1.as_slice());
            proof {
                let s = e.skip(j as int);
                assert(out@ + heap_image(e.skip(j + 1)) =~= before + heap_image(s));
            }
            j = j + 1;
        }
        proof {
            assert(e.skip(n as int) =~= Seq::<(Seq<u8>, Seq<u8>)>::empty());
            assert(out@ =~= flat_image(e));
        }
        Ok(out)
    }
}

/// The index entries found by scanning `data` from `pos` up to `end`; the scan
/// stops at the first entry that would cross `end`.
pub open spec fn records_from(data: Seq<u8>, pos: int, end: int) -> Seq<(Seq<u8>, nat, nat)>
    decreases end - pos,
{
    if pos < 0 || end > data.len() || pos + 4 > end {
        Seq::empty()
    } else {
        let kend = pos + 4 + le_value(data.subrange(pos, pos + 4));
        if kend + 16 > end {
            Seq::empty()
        } else {
            seq![
                (
                    data.subrange(pos + 4, kend),
                    le_value(data.subrange(kend, kend + 8)),
                    le_value(data.subrange(kend + 8, kend + 16)),
                ),
            ] + records_from(data, kend + 16, end)
        }
    }
}

/// The keys of index entries.
pub open spec fn record_keys(recs: Seq<(Seq<u8>, nat, nat)>) -> Seq<Seq<u8>> {
    recs.map_values(|r: (Seq<u8>, nat, nat)| r.0)
}

/// The scan for `key` over ascending entries: the payload location of an equal
/// key, stopping with nothing at the first greater key.
pub open spec fn seek(recs: Seq<(Seq<u8>, nat, nat)>, key: Seq<u8>) -> Option<(nat, nat)>
    decreases recs.len(),
{
    if recs.len() == 0 {
        None
    } else if recs[0].0 == key {
        Some((recs[0].1, recs[0].2))
    } else if bytes_order(recs[0].0, key) == Ordering::Greater {
        None
    } else {
        seek(recs.drop_first(), key)
    }
}

/// Whole index entries, one after another, fill `data` from `pos` exactly up to `end`.
pub open spec fn entries_fill(data: Seq<u8>, pos: int, end: int) -> bool
    decreases end - pos,
{
    if pos < 0 || end > data.len() || pos > end {
        false
    } else if pos == end {
        true
    } else if pos + 4 > end {
        false
    } else {
        let kend = pos + 4 + le_value(data.subrange(pos, pos + 4));
        if kend + 16 > end {
            false
        } else {
            entries_fill(data, kend + 16, end)
        }
    }
}

/// The header of a flat file: index start, heap start and entry count, when
/// the tag matches, the index starts right after the header, whole entries
/// fill the index region up to the heap, the heap lies within the file, and
/// the entries are as many as the header declares.
pub open spec fn flat_layout(data: Seq<u8>) -> Result<(nat, nat, nat), StoreError> {
    if data.len() < 64 {
        Err(StoreError::Truncated)
    } else if data.subrange(0, 8) != flat_magic() {
        Err(StoreError::BadMagic)
    } else {
        let f = header_fields(data);
        if f.0 == 64 && f.0 <= f.1 <= data.len() && entries_fill(data, f.0 as int, f.1 as int)
            && records_from(data, f.0 as int, f.1 as int).len() == f.2 {
            Ok(f)
        } else {
            Err(StoreError::BadLayout)
        }
    }
}

/// What a lookup of `key` in the flat file `data` gives.
pub open spec fn flat_get(data: Seq<u8>, key: Seq<u8>) -> Result<Option<Seq<u8>>, StoreError> {
    match flat_layout(data) {
        Err(e) => Err(e),
        Ok(f) => match seek(records_from(data, f.0 as int, f.1 as int), key) {
            None => Ok(None),
            Some(p) => if p.0 + p.1 <= data.len() {
                Ok(Some(data.subrange(p.0 as int, (p.0 + p.1) as int)))
            } else {
                Err(StoreError::Truncated)
            },
        },
    }
}

/// The keys of the flat file `data`, in file order.
pub open spec fn flat_keys(data: Seq<u8>) -> Result<Seq<Seq<u8>>, StoreError> {
    match flat_layout(data) {
        Err(e) => Err(e),
        Ok(f) => Ok(record_keys(records_from(data, f.0 as int, f.1 as int))),
    }
}

/// A sealed flat file, read in place.
pub struct BTreeDatStore<'a> {
    data: &'a [u8],
    index_start: usize,
    heap_start: usize,
    entry_count: usize,
}

impl<'a> BTreeDatStore<'a> {
    /// The bytes of the sealed file.
    pub closed spec fn data(&self) -> Seq<u8> {
        self.data@
    }

    /// The header fields agree with the file.
    pub closed spec fn wf(&self) -> bool {
        flat_layout(self.data@) == Ok::<(nat, nat, nat), StoreError>(
            (self.index_start as nat, self.heap_start as nat, self.entry_count as nat),
        )
    }

    /// Payload location of `key`, by scanning the index in order and stopping
    /// at the first greater key.
    fn find_key(&self, key: &[u8]) -> (r: Option<(u64, u64)>)
        requires
            self.wf(),
        ensures
            match r {
                Some(p) => seek(
                    records_from(self.data@, self.index_start as int, self.heap_start as int),
                    key@,
                ) == Some((p.0 as nat, p.1 as nat)),
                None => seek(
                    records_from(self.data@, self.index_start as int, self.heap_start as int),
                    key@,
                ) is None,
            },
    {
        let data = self.data;
        let end = self.heap_start;
        let mut pos = self.index_start;
        let ghost start = self.index_start as int;
        while pos < end
            invariant
                start <= pos <= end <= data@.len(),
                data@ == self.data@,
                end == self.heap_start,
                start == self.index_start,
                seek(records_from(data@, start, end as int), key@) == seek(
                    records_from(data@, pos as int, end as int),
                    key@,
                ),
            decreases end - pos,
        {
            if end - pos < 4 {
                return None;
            }
            let klen = read_le(data, pos, 4);
            proof {
                crate::codec::lemma_pow256_values();
            }
            let room = end - pos - 4;
            if klen + 16 > room as u64 {
                return None;
            }
            let kstart = pos + 4;
            let kend = kstart + klen as usize;
            let entry_key = slice_subrange(data, kstart, kend);
            let off = read_le(data, kend, 8);
            let len = read_le(data, kend + 8, 8);
            let ghost recs = records_from(data@, pos as int, end as int);
            proof {
                assert(recs[0] == (entry_key@, off as nat, len as nat));
                assert(recs.drop_first() =~= records_from(data@, kend + 16, end as int));
            }
            match compare_bytes(entry_key, key) {
                Ordering::Equal => {
                    return Some((off, len));
                },
                Ordering::Greater => {
                    return None;
                },
                Ordering::Less => {},
            }
            pos = kend + 16;
        }
        None
    }
}

impl<'a> BlobStore<'a> for BTreeDatStore<'a> {
    open spec fn source(&self) -> Seq<u8> {
        self.data()
    }

    open spec fn valid(&self) -> bool {
        self.wf()
    }

    open spec fn lookup_of(&self, key: Seq<u8>) -> Result<Option<Seq<u8>>, StoreError> {
        flat_get(self.data(), key)
    }

    open spec fn listing(&self) -> Result<Seq<Seq<u8>>, StoreError> {
        flat_keys(self.data())
    }

    open spec fn count(&self) -> nat {
        flat_layout(self.data())->Ok_0.2
    }

    /// Opens the sealed file `data`, checking its header.
    fn open(data: &'a [u8]) -> (r: Result<Self, StoreError>)
        ensures
            match r {
                Ok(s) => flat_layout(data@) is Ok,
                Err(e) => flat_layout(data@) == Err::<(nat, nat, nat), StoreError>(e),
            },
    {
        let magic: Vec<u8> = vec![0x42u8, 0x54u8, 0x52u8, 0x45u8, 0x45u8, 0x49u8, 0x44u8, 0x58u8];
        proof {
            assert(magic@ =~= flat_magic());
        }
        let (idx, heap, count) = match read_header(data, magic.as_slice()) {
            Ok(f) => f,
            Err(e) => {
                return Err(e);
            },
        };
        if idx != 64 || idx > heap || heap > data.len() as u64 {
            return Err(StoreError::BadLayout);
        }
        let start = idx as usize;
        let end = heap as usize;
        let mut pos = start;
        let mut n: usize = 0;
        while pos < end
            invariant
                start <= pos <= end <= data@.len(),
                n <= pos - start,
                data@.len() >= 64,
                data@.subrange(0, 8) == flat_magic(),
                header_fields(data@).0 == start,
                header_fields(data@).1 == end,
                start == 64,
                entries_fill(data@, start as int, end as int) == entries_fill(
                    data@,
                    pos as int,
                    end as int,
                ),
                records_from(data@, start as int, end as int).len() == n + records_from(
                    data@,
                    pos as int,
                    end as int,
                ).len(),
            decreases end - pos,
        {
            if end - pos < 4 {
                return Err(StoreError::BadLayout);
            }
            let klen = read_le(data, pos, 4);
            proof {
                crate::codec::lemma_pow256_values();
            }
            if klen + 16 > (end - pos - 4) as u64 {
                return Err(StoreError::BadLayout);
            }
            pos = pos + 4 + klen as usize + 16;
            n = n + 1;
        }
        if n as u64 != count {
            return Err(StoreError::BadLayout);
        }
        Ok(BTreeDatStore { data, index_start: start, heap_start: end, entry_count: n })
    }

    /// The value stored under `key`, or nothing when no entry has that key.
    fn get(&self, key: &[u8]) -> (r: Result<Option<Vec<u8>>, StoreError>) {
        match self.find_key(key) {
            None => Ok(None),
            Some((off, len)) => {
                let size = self.data.len() as u64;
                if off > size || len > size - off {
                    Err(StoreError::Truncated)
                } else {
                    let blob = slice_subrange(self.data, off as usize, (off + len) as usize);
                    Ok(Some(slice_to_vec(blob)))
                }
            },
        }
    }

    /// Every key, in index order.
    fn keys(&self) -> (r: Result<Vec<Vec<u8>>, StoreError>)
        ensures
            r is Ok,
    {
        let data = self.data;
        let end = self.heap_start;
        let mut pos = self.index_start;
        let ghost start = self.index_start as int;
        let mut out: Vec<Vec<u8>> = Vec::with_capacity(self.entry_count);
        proof {
            assert(out@.map_values(|k: Vec<u8>| k@) + record_keys(
                records_from(data@, pos as int, end as int),
            ) =~= record_keys(records_from(data@, start, end as int)));
        }
        while pos < end
            invariant
                start <= pos <= end <= data@.len(),
                data@ == self.data@,
                end == self.heap_start,
                start == self.index_start,
                out@.map_values(|k: Vec<u8>| k@) + record_keys(
                    records_from(data@, pos as int, end as int),
                ) == record_keys(records_from(data@, start, end as int)),
            ensures
                start <= pos <= end <= data@.len(),
                out@.map_values(|k: Vec<u8>| k@) + record_keys(
                    records_from(data@, pos as int, end as int),
                ) == record_keys(records_from(data@, start, end as int)),
                records_from(data@, pos as int, end as int).len() == 0,
            decreases end - pos,
        {
            if end - pos < 4 {
                break;
            }
            let klen = read_le(data, pos, 4);
            proof {
                crate::codec::lemma_pow256_values();
            }
            let room = end - pos - 4;
            if klen + 16 > room as u64 {
                break;
            }
            let kstart = pos + 4;
            let kend = kstart + klen as usize;
            let entry_key = slice_to_vec(slice_subrange(data, kstart, kend));
            let ghost recs = records_from(data@, pos as int, end as int);
            let ghost before = out@.map_values(|k: Vec<u8>| k@);
            out.push(entry_key);
            proof {
                let rest = records_from(data@, kend + 16, end as int);
                assert(recs =~= seq![recs[0]] + rest);
                assert(record_keys(recs) =~= seq![entry_key@] + record_keys(rest));
                assert(out@.map_values(|k: Vec<u8>| k@) =~= before.push(entry_key@));
                assert(out@.map_values(|k: Vec<u8>| k@) + record_keys(rest) =~= before
                    + record_keys(recs));
            }
            pos = kend + 16;
        }
        proof {
            assert(record_keys(records_from(data@, pos as int, end as int)) =~= Seq::<
                Seq<u8>,
            >::empty());
            assert(out@.map_values(|k: Vec<u8>| k@) =~= record_keys(
                records_from(data@, start, end as int),
            ));
        }
        Ok(out)
    }

    /// The entry count that the header declares.
    fn len(&self) -> (r: usize) {
        self.entry_count
    }

    /// Name used in reports.
    fn backend_name() -> (r: &'static str)
        ensures
            r@ == "B-tree DAT"@,
    {
        proof {
            reveal_strlit("B-tree DAT");
        }
        "B-tree DAT"
    }
}

/// The index entries that `index_image(e, off)` holds.
pub open spec fn index_records(e: Seq<(Seq<u8>, Seq<u8>)>, off: nat) -> Seq<(Seq<u8>, nat, nat)>
    decreases e.len(),
{
    if e.len() == 0 {
        Seq::empty()
    } else {
        seq![(e[0].0, off, e[0].1.len())] + index_records(e.drop_first(), off + e[0].1.len())
    }
}

proof fn lemma_image_sizes(e: Seq<(Seq<u8>, Seq<u8>)>, off: nat)
    ensures
        index_image(e, off).len() == index_size(e),
        heap_image(e).len() == heap_size(e),
        index_size(e) >= 20 * e.len(),
        record_keys(index_records(e, off)) == keys_of(e),
        index_records(e, off).len() == e.len(),
    decreases e.len(),
{
    if e.len() > 0 {
        let rest = e.drop_first();
        let v = e[0].1.len();
        lemma_image_sizes(rest, off + v);
        lemma_le_bytes_len(e[0].0.len() as nat, 4);
        lemma_le_bytes_len(off, 8);
        lemma_le_bytes_len(v, 8);
        assert(record_keys(index_records(e, off)) =~= seq![e[0].0] + record_keys(
            index_records(rest, off + v),
        ));
        assert(keys_of(e) =~= seq![e[0].0] + keys_of(rest));
    } else {
        assert(record_keys(index_records(e, off)) =~= keys_of(e));
    }
}

/// Scanning an index region written for `e` finds exactly `e`'s entries.
proof fn lemma_parse_index(data: Seq<u8>, pos: int, e: Seq<(Seq<u8>, Seq<u8>)>, off: nat)
    requires
        keys_fit(e),
        0 <= pos,
        pos + index_size(e) <= data.len(),
        data.subrange(pos, pos + index_size(e)) == index_image(e, off),
        off + heap_size(e) <= u64::MAX,
    ensures
        records_from(data, pos, pos + index_size(e)) == index_records(e, off),
        entries_fill(data, pos, pos + index_size(e)),
    decreases e.len(),
{
    let end = pos + index_size(e);
    if e.len() == 0 {
        assert(records_from(data, pos, end) =~= index_records(e, off));
    } else {
        let k = e[0].0;
        let v = e[0].1.len();
        let rest = e.drop_first();
        assert(keys_fit(rest)) by {
            assert forall|i: int| 0 <= i < rest.len() implies (#[trigger] rest[i]).0.len()
                <= u32::MAX by {
                assert(rest[i] == e[i + 1]);
            }
        }
        lemma_image_sizes(rest, off + v);
        lemma_image_sizes(e, off);
        lemma_le_bytes_len(k.len() as nat, 4);
        lemma_le_bytes_len(off, 8);
        lemma_le_bytes_len(v, 8);
        lemma_pow256_values();
        lemma_le_round_trip(k.len() as nat, 4);
        lemma_le_round_trip(off, 8);
        lemma_le_round_trip(v, 8);
        let img = index_image(e, off);
        let kl = k.len() as int;
        assert(img == le_bytes(k.len() as nat, 4) + k + le_bytes(off, 8) + le_bytes(v, 8)
            + index_image(rest, off + v));
        assert(data.subrange(pos, pos + 4) =~= le_bytes(k.len() as nat, 4)) by {
            assert(data.subrange(pos, pos + 4) =~= img.subrange(0, 4));
        }
        assert(data.subrange(pos + 4, pos + 4 + kl) =~= k) by {
            assert(data.subrange(pos + 4, pos + 4 + kl) =~= img.subrange(4, 4 + kl));
        }
        assert(data.subrange(pos + 4 + kl, pos + 12 + kl) =~= le_bytes(off, 8)) by {
            assert(data.subrange(pos + 4 + kl, pos + 12 + kl) =~= img.subrange(4 + kl, 12 + kl));
        }
        assert(data.subrange(pos + 12 + kl, pos + 20 + kl) =~= le_bytes(v, 8)) by {
            assert(data.subrange(pos + 12 + kl, pos + 20 + kl) =~= img.subrange(12 + kl, 20 + kl));
        }
        assert(data.subrange(pos + 20 + kl, end) =~= index_image(rest, off + v)) by {
            assert(data.subrange(pos + 20 + kl, end) =~= img.subrange(20 + kl, img.len() as int));
        }
        lemma_parse_index(data, pos + 20 + kl, rest, off + v);
        assert(records_from(data, pos, end) =~= index_records(e, off));
    }
}

/// Seeking `key` through the entries written for ascending pairs `e`, whose
/// values sit at `off` in `data`, finds the value that `e` pairs with `key`.
proof fn lemma_seek_index(data: Seq<u8>, e: Seq<(Seq<u8>, Seq<u8>)>, off: nat, key: Seq<u8>)
    requires
        keys_ascending(e),
        off + heap_size(e) <= data.len(),
        data.subrange(off as int, (off + heap_size(e)) as int) == heap_image(e),
    ensures
        match seek(index_records(e, off), key) {
            None => lookup(e, key) is None,
            Some(p) => p.0 + p.1 <= data.len() && lookup(e, key) == Some(
                data.subrange(p.0 as int, (p.0 + p.1) as int),
            ),
        },
    decreases e.len(),
{
    lemma_ascending_unique(e);
    if e.len() > 0 {
        let rest = e.drop_first();
        let v = e[0].1;
        let recs = index_records(e, off);
        lemma_image_sizes(e, off);
        lemma_image_sizes(rest, off + v.len());
        assert(recs[0] == (e[0].0, off, v.len()));
        assert(recs.drop_first() =~= index_records(rest, off + v.len()));
        assert(heap_image(e) == v + heap_image(rest));
        if e[0].0 == key {
            lemma_lookup_at(e, 0);
            assert(data.subrange(off as int, (off + v.len()) as int) =~= heap_image(e).subrange(
                0,
                v.len() as int,
            ));
        } else if bytes_order(e[0].0, key) == Ordering::Greater {
            lemma_order_flip(e[0].0, key);
            lemma_order_refl(key);
            if has_key(e, key) {
                let j = choose|j: int| 0 <= j < e.len() && #[trigger] e[j].0 == key;
                assert(j != 0);
                assert(bytes_lt(e[0].0, e[j].0));
                lemma_order_trans(key, e[0].0, e[j].0);
            }
        } else {
            assert(keys_ascending(rest)) by {
                assert forall|i: int, j: int| 0 <= i < j < rest.len() implies bytes_lt(
                    #[trigger] rest[i].0,
                    #[trigger] rest[j].0,
                ) by {
                    assert(rest[i] == e[i + 1] && rest[j] == e[j + 1]);
                }
            }
            assert(heap_size(e) == v.len() + heap_size(rest));
            assert(heap_image(e).subrange(v.len() as int, heap_size(e) as int) =~= heap_image(
                rest,
            ));
            assert(data.subrange((off + v.len()) as int, (off + v.len() + heap_size(rest)) as int)
                =~= data.subrange(off as int, (off + heap_size(e)) as int).subrange(
                v.len() as int,
                heap_size(e) as int,
            ));
            lemma_seek_index(data, rest, off + v.len(), key);
            lemma_ascending_unique(rest);
            if has_key(e, key) {
                let j = choose|j: int| 0 <= j < e.len() && #[trigger] e[j].0 == key;
                assert(rest[j - 1] == e[j]);
                lemma_lookup_at(e, j);
                lemma_lookup_at(rest, j - 1);
            } else if has_key(rest, key) {
                let j = choose|j: int| 0 <= j < rest.len() && #[trigger] rest[j].0 == key;
                assert(e[j + 1] == rest[j]);
            }
        }
    }
}

/// Round trip: the file that `finish` lays out for ascending pairs `e` opens
/// with `e.len()` entries, a lookup of any key gives the value that `e` pairs
/// with it (and nothing for a key that `e` lacks), and the listed keys are `e`'s.
pub proof fn lemma_flat_round_trip(e: Seq<(Seq<u8>, Seq<u8>)>, key: Seq<u8>)
    requires
        keys_ascending(e),
        keys_fit(e),
        flat_image_fits(e),
    ensures
        flat_layout(flat_image(e)) == Ok::<(nat, nat, nat), StoreError>(
            (64, 64 + index_size(e), e.len()),
        ),
        flat_get(flat_image(e), key) == Ok::<Option<Seq<u8>>, StoreError>(lookup(e, key)),
        flat_keys(flat_image(e)) == Ok::<Seq<Seq<u8>>, StoreError>(keys_of(e)),
{
    let is = index_size(e);
    let hs = heap_size(e);
    let heap_start = 64 + is;
    lemma_image_sizes(e, heap_start);
    let idx = index_image(e, heap_start);
    let heap = heap_image(e);
    let body = idx + heap;
    lemma_header_round_trip(flat_magic(), 64, heap_start as u64, e.len() as u64, body);
    let data = flat_image(e);
    assert(data =~= header_image(flat_magic(), 64, heap_start, e.len()) + body);
    assert(e.len() <= is / 20) by (nonlinear_arith)
        requires
            is >= 20 * e.len(),
    ;
    assert(data.subrange(64, heap_start as int) =~= idx);
    assert(data.subrange(heap_start as int, (heap_start + hs) as int) =~= heap);
    lemma_parse_index(data, 64, e, heap_start);
    lemma_seek_index(data, e, heap_start, key);
}

/// Listing the keys of a flat file built from ascending pairs gives them in
/// strictly ascending byte order.
pub proof fn lemma_flat_keys_ascending(e: Seq<(Seq<u8>, Seq<u8>)>)
    requires
        keys_ascending(e),
        keys_fit(e),
        flat_image_fits(e),
    ensures
        flat_keys(flat_image(e)) matches Ok(ks) && ks.len() == e.len() && forall|i: int, j: int|
            0 <= i < j < ks.len() ==> bytes_lt(#[trigger] ks[i], #[trigger] ks[j]),
{
    lemma_flat_round_trip(e, Seq::empty());
}

/// An empty builder seals into a file that declares no entries, lists no
/// keys and finds nothing.
pub proof fn lemma_flat_empty(key: Seq<u8>)
    ensures
        ({
            let data = flat_image(Seq::empty());
            &&& flat_layout(data) matches Ok(f) && f.2 == 0
            &&& flat_keys(data) == Ok::<Seq<Seq<u8>>, StoreError>(Seq::empty())
            &&& flat_get(data, key) == Ok::<Option<Seq<u8>>, StoreError>(None)
        }),
{
    let e = Seq::<(Seq<u8>, Seq<u8>)>::empty();
    assert(flat_image_fits(e));
    lemma_flat_round_trip(e, key);
    assert(keys_of(e) =~= Seq::<Seq<u8>>::empty());
}

/// Two stores opened on the same sealed bytes answer every lookup and
/// listing alike and declare the same entry count.
pub proof fn lemma_flat_open_twice(a: BTreeDatStore, b: BTreeDatStore, key: Seq<u8>)
    requires
        a.data() == b.data(),
    ensures
        flat_get(a.data(), key) == flat_get(b.data(), key),
        flat_keys(a.data()) == flat_keys(b.data()),
        flat_layout(a.data()) == flat_layout(b.data()),
{
}

proof fn lemma_replace(e: Seq<(Seq<u8>, Seq<u8>)>, mid: int, value: Seq<u8>)
    requires
        keys_ascending(e),
        0 <= mid < e.len(),
    ensures
        ({
            let e2 = e.update(mid, (e[mid].0, value));
            &&& keys_ascending(e2)
            &&& forall|k: Seq<u8>| #[trigger]
                lookup(e2, k) == if k == e[mid].0 {
                    Some(value)
                } else {
                    lookup(e, k)
                }
            &&& has_key(e, e[mid].0)
        }),
{
    let key = e[mid].0;
    let e2 = e.update(mid, (key, value));
    assert(keys_ascending(e2)) by {
        assert forall|i: int, j: int| 0 <= i < j < e2.len() implies bytes_lt(
            #[trigger] e2[i].0,
            #[trigger] e2[j].0,
        ) by {
            assert(e2[i].0 == e[i].0 && e2[j].0 == e[j].0);
        }
    }
    lemma_ascending_unique(e);
    lemma_ascending_unique(e2);
    lemma_lookup_at(e, mid);
    assert forall|k: Seq<u8>| #[trigger]
        lookup(e2, k) == if k == key {
            Some(value)
        } else {
            lookup(e, k)
        } by {
        if k == key {
            lemma_lookup_at(e2, mid);
        } else if has_key(e, k) {
            let j = choose|j: int| 0 <= j < e.len() && #[trigger] e[j].0 == k;
            lemma_lookup_at(e, j);
            lemma_lookup_at(e2, j);
        } else {
            if has_key(e2, k) {
                let j = choose|j: int| 0 <= j < e2.len() && #[trigger] e2[j].0 == k;
                assert(e[j].0 == k);
            }
        }
    }
}

proof fn lemma_insert_at(e: Seq<(Seq<u8>, Seq<u8>)>, lo: int, key: Seq<u8>, value: Seq<u8>)
    requires
        keys_ascending(e),
        0 <= lo <= e.len(),
        forall|i: int| 0 <= i < lo ==> bytes_lt(#[trigger] e[i].0, key),
        forall|i: int| lo <= i < e.len() ==> bytes_lt(key, #[trigger] e[i].0),
    ensures
        ({
            let e2 = e.insert(lo, (key, value));
            &&& keys_ascending(e2)
            &&& forall|k: Seq<u8>| #[trigger]
                lookup(e2, k) == if k == key {
                    Some(value)
                } else {
                    lookup(e, k)
                }
            &&& !has_key(e, key)
        }),
{
    let e2 = e.insert(lo, (key, value));
    lemma_order_refl(key);
    assert(keys_ascending(e2)) by {
        assert forall|i: int, j: int| 0 <= i < j < e2.len() implies bytes_lt(
            #[trigger] e2[i].0,
            #[trigger] e2[j].0,
        ) by {
            if i < lo && j > lo {
                assert(e2[i] == e[i] && e2[j] == e[j - 1]);
            } else if i > lo {
                assert(e2[i] == e[i - 1] && e2[j] == e[j - 1]);
            } else if j < lo {
                assert(e2[i] == e[i] && e2[j] == e[j]);
            } else if i == lo {
                assert(e2[j] == e[j - 1]);
            } else {
                assert(e2[i] == e[i]);
            }
        }
    }
    assert(!has_key(e, key)) by {
        if has_key(e, key) {
            let j = choose|j: int| 0 <= j < e.len() && #[trigger] e[j].0 == key;
            if j < lo {
                assert(bytes_lt(e[j].0, key));
            } else {
                assert(bytes_lt(key, e[j].0));
            }
        }
    }
    lemma_ascending_unique(e);
    lemma_ascending_unique(e2);
    assert forall|k: Seq<u8>| #[trigger]
        lookup(e2, k) == if k == key {
            Some(value)
        } else {
            lookup(e, k)
        } by {
        if k == key {
            lemma_lookup_at(e2, lo);
        } else if has_key(e, k) {
            let j = choose|j: int| 0 <= j < e.len() && #[trigger] e[j].0 == k;
            lemma_lookup_at(e, j);
            if j < lo {
                lemma_lookup_at(e2, j);
            } else {
                assert(e2[j + 1] == e[j]);
                lemma_lookup_at(e2, j + 1);
            }
        } else {
            if has_key(e2, k) {
                let j = choose|j: int| 0 <= j < e2.len() && #[trigger] e2[j].0 == k;
                if j < lo {
                    assert(e[j].0 == k);
                } else {
                    assert(j != lo);
                    assert(e[j - 1].0 == k);
                }
            }
        }
    }
}

} // verus!
