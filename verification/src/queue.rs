//! The single-producer/single-consumer ring queue over a memory map.
//!
//! The file layout is bit-exact: a 48-byte header — magic, capacity,
//! slot size, head, tail, mask, each a little-endian `u64` — followed by
//! `capacity` slots of `slot_size` bytes, each holding a `u32` length prefix
//! and the payload. Capacity is a power of two, so a logical index taken
//! modulo the capacity addresses its slot even when the 64-bit counters
//! wrap.
//!
//! The map itself sits behind a small trusted surface; every header and
//! slot access, and the queue discipline itself, is verified against
//! `msgs()`: the pending messages, oldest first. The trusted surface models
//! the mapping as exclusively owned: a second mapping of the same file —
//! the other process of a producer/consumer pair — is outside the verified
//! model, which matches the queue's single-owner-per-end discipline.

use vstd::prelude::*;
use vstd::bytes::*;
use vstd::arithmetic::power2::pow2;

verus! {

/// What can go wrong around the queue: a capacity that is not a power of
/// two, arithmetic past the address space, a failed map, a file too small
/// to hold a header, a header that does not describe its file, a full
/// queue, an oversized payload, and a slot whose length prefix is broken.
#[derive(Debug, Clone, Copy, PartialEq, Eq, Structural)]
pub enum QueueError {
    CapacityNotPowerOfTwo,
    TooLarge,
    MapFailed,
    TooSmall,
    MagicMismatch,
    SizeMismatch,
    BadHeader,
    Overflow,
    PayloadTooLarge,
    CorruptSlot,
}

pub const QUEUE_MAGIC: u64 = 0x4D514D50524F4451;

pub const HEADER_SIZE: usize = 48;

/// The fixed header: magic, capacity, slot size, head, tail, mask.
pub struct Header {
    pub magic: u64,
    pub capacity: u64,
    pub slot_size: u64,
    pub head: u64,
    pub tail: u64,
    pub mask: u64,
}

impl Header {
    /// The header's size in bytes: six little-endian `u64` fields.
    pub fn size() -> (r: usize)
        ensures
            r == HEADER_SIZE,
    {
        HEADER_SIZE
    }
}

// ---------- the memory map, behind a trusted surface ----------

#[verifier::external_type_specification]
#[verifier::external_body]
pub struct ExMmapMut(memmap2::MmapMut);

/// The bytes a memory map holds.
pub uninterp spec fn mmap_bytes(m: memmap2::MmapMut) -> Seq<u8>;

/// A byte string with one contiguous range overwritten.
pub open spec fn spec_write_bytes(s: Seq<u8>, off: int, d: Seq<u8>) -> Seq<u8> {
    Seq::new(
        s.len(),
        |i: int|
            if off <= i < off + d.len() {
                d[i - off]
            } else {
                s[i]
            },
    )
}

/// Relies on memmap2::MmapMut::map_anon: an anonymous map of exactly the
/// asked length, or an error from the operating system.
#[verifier::external_body]
fn map_anon(len: usize) -> (r: Result<memmap2::MmapMut, QueueError>)
    ensures
        r is Ok ==> mmap_bytes(r->Ok_0).len() == len,
        r is Err ==> r->Err_0 == QueueError::MapFailed,
{
    memmap2::MmapMut::map_anon(len).map_err(|_| QueueError::MapFailed)
}

/// Relies on the byte-slice view of memmap2::MmapMut: its length.
#[verifier::external_body]
fn mmap_len(m: &memmap2::MmapMut) -> (r: usize)
    ensures
        r == mmap_bytes(*m).len(),
{
    m.len()
}

/// Relies on the byte-slice view of memmap2::MmapMut: reading copies the
/// bytes of the given range.
#[verifier::external_body]
fn mmap_read(m: &memmap2::MmapMut, off: usize, len: usize) -> (r: Vec<u8>)
    requires
        off + len <= mmap_bytes(*m).len(),
    ensures
        r@ == mmap_bytes(*m).subrange(off as int, off as int + len as int),
{
    m[off..off + len].to_vec()
}

/// Relies on the mutable byte-slice view of memmap2::MmapMut: writing
/// replaces exactly the bytes of the given range.
#[verifier::external_body]
fn mmap_write(m: &mut memmap2::MmapMut, off: usize, data: &[u8])
    requires
        off + data@.len() <= mmap_bytes(*old(m)).len(),
    ensures
        mmap_bytes(*final(m)) == spec_write_bytes(mmap_bytes(*old(m)), off as int, data@),
{
    m[off..off + data.len()].copy_from_slice(data);
}

// ---------- arithmetic around the ring ----------

/// Whether a capacity is a power of two that a `u64` can hold.
pub open spec fn is_pow2_u64(c: u64) -> bool {
    exists|k: nat| k <= 63 && c == pow2(k)
}

pub open spec fn wadd(a: u64, b: u64) -> u64 {
    vstd::wrapping::u64_specs::wrapping_add(a, b)
}

pub open spec fn wsub(a: u64, b: u64) -> u64 {
    vstd::wrapping::u64_specs::wrapping_sub(a, b)
}

/// The header fields of a queue file's bytes.
pub open spec fn hdr_magic(b: Seq<u8>) -> u64 {
    spec_u64_from_le_bytes(b.subrange(0, 8))
}

pub open spec fn hdr_capacity(b: Seq<u8>) -> u64 {
    spec_u64_from_le_bytes(b.subrange(8, 16))
}

pub open spec fn hdr_slot_size(b: Seq<u8>) -> u64 {
    spec_u64_from_le_bytes(b.subrange(16, 24))
}

pub open spec fn hdr_head(b: Seq<u8>) -> u64 {
    spec_u64_from_le_bytes(b.subrange(24, 32))
}

pub open spec fn hdr_tail(b: Seq<u8>) -> u64 {
    spec_u64_from_le_bytes(b.subrange(32, 40))
}

pub open spec fn hdr_mask(b: Seq<u8>) -> u64 {
    spec_u64_from_le_bytes(b.subrange(40, 48))
}

/// Whether a byte string is a valid queue file: it holds a header whose
/// magic, power-of-two capacity, slot size, mask and size equation all
/// agree, and whose counters pend no more than the capacity.
pub open spec fn header_ok(b: Seq<u8>) -> bool {
    &&& b.len() >= 48
    &&& hdr_magic(b) == QUEUE_MAGIC
    &&& is_pow2_u64(hdr_capacity(b))
    &&& 4 <= hdr_slot_size(b)
    &&& hdr_slot_size(b) - 4 <= u32::MAX
    &&& hdr_mask(b) == hdr_capacity(b) - 1
    &&& b.len() == 48 + hdr_capacity(b) * hdr_slot_size(b)
    &&& wsub(hdr_tail(b), hdr_head(b)) <= hdr_capacity(b)
}

/// A power of two not above 2^63 divides 2^64.
proof fn lemma_pow2_divides(c: u64)
    requires
        is_pow2_u64(c),
    ensures
        c >= 1,
        pow2(64) % (c as nat) == 0,
{
    let k = choose|k: nat| k <= 63 && c == pow2(k);
    vstd::arithmetic::power2::lemma_pow2_pos(k);
    vstd::arithmetic::power2::lemma_pow2_adds(k, (64 - k) as nat);
    vstd::arithmetic::power2::lemma_pow2_pos((64 - k) as nat);
    let m = pow2((64 - k) as nat);
    assert(pow2(64) == pow2(k) * m);
    vstd::arithmetic::div_mod::lemma_mod_multiples_basic(m as int, c as int);
    assert((m as int * c as int) % (c as int) == 0);
    assert(pow2(64) as int == m as int * c as int) by {
        assert(pow2(64) == c * m);
        vstd::arithmetic::mul::lemma_mul_is_commutative(c as int, m as int);
    }
    assert(pow2(64) as int % (c as int) == 0);
}

/// Reducing modulo 2^64 first does not change a residue modulo a dividing
/// power of two.
proof fn lemma_wrap_mod(x: int, c: u64)
    requires
        is_pow2_u64(c),
        0 <= x,
    ensures
        (x % pow2(64) as int) % (c as int) == x % (c as int),
{
    lemma_pow2_divides(c);
    let n = pow2(64) as int;
    let q = n / (c as int);
    assert(n % (c as int) == 0);
    vstd::arithmetic::div_mod::lemma_fundamental_div_mod(n, c as int);
    assert(n == (c as int) * q);
    assert(n > 0) by {
        vstd::arithmetic::power2::lemma_pow2_pos(64);
    }
    assert(q > 0) by (nonlinear_arith)
        requires
            n == (c as int) * q,
            n > 0,
            c > 0,
    ;
    vstd::arithmetic::div_mod::lemma_mod_mod(x, c as int, q);
    assert((x % ((c as int) * q)) % (c as int) == x % (c as int));
}

/// The wrapped difference acts like an exact count: advancing the tail by
/// one grows it by one, advancing the head shrinks it.
proof fn lemma_wsub_step(t: u64, h: u64)
    requires
        wsub(t, h) < u64::MAX,
    ensures
        wsub(wadd(t, 1), h) == wsub(t, h) + 1,
        wadd(h, wsub(t, h)) == t,
        wsub(t, h) > 0 ==> wsub(t, wadd(h, 1)) == wsub(t, h) - 1,
        wsub(t, h) > 0 ==> wadd(wadd(h, 1), (wsub(t, h) - 1) as u64) == t,
{
}

/// Wrapped addition associates with exact addition of small counts.
proof fn lemma_wadd_assoc(h: u64, a: u64, b: u64)
    requires
        a + b <= u64::MAX,
    ensures
        wadd(wadd(h, a), b) == wadd(h, (a + b) as u64),
{
}

} // verus!

// ---------- the queue itself ----------

verus! {

/// A single-producer/single-consumer ring queue over a memory map.
pub struct MmapQueue {
    map: memmap2::MmapMut,
    capacity: u64,
    slot_size: u64,
    mask: u64,
}

impl MmapQueue {
    pub closed spec fn bytes(&self) -> Seq<u8> {
        mmap_bytes(self.map)
    }

    /// How many slots the ring holds.
    pub closed spec fn spec_capacity(&self) -> u64 {
        self.capacity
    }

    /// The largest payload a slot can carry.
    pub closed spec fn spec_max_payload(&self) -> int {
        self.slot_size - 4
    }

    closed spec fn sp_head(&self) -> u64 {
        spec_u64_from_le_bytes(self.bytes().subrange(24, 32))
    }

    closed spec fn sp_tail(&self) -> u64 {
        spec_u64_from_le_bytes(self.bytes().subrange(32, 40))
    }

    closed spec fn pending(&self) -> u64 {
        wsub(self.sp_tail(), self.sp_head())
    }

    closed spec fn slot_off(&self, j: u64) -> int {
        48 + (j as int % self.capacity as int) * self.slot_size
    }

    closed spec fn slot_len(&self, j: u64) -> u32 {
        spec_u32_from_le_bytes(self.bytes().subrange(self.slot_off(j), self.slot_off(j) + 4))
    }

    /// What one pending slot carries: its payload, or nothing if its length
    /// prefix is out of range.
    closed spec fn slot_msg(&self, j: u64) -> Option<Seq<u8>> {
        if self.slot_len(j) + 4 <= self.slot_size {
            Some(
                self.bytes().subrange(
                    self.slot_off(j) + 4,
                    self.slot_off(j) + 4 + self.slot_len(j),
                ),
            )
        } else {
            None
        }
    }

    /// The pending messages, oldest first. A `None` marks a slot whose
    /// length prefix is broken — possible only in a file this library did
    /// not write.
    pub closed spec fn msgs(&self) -> Seq<Option<Seq<u8>>> {
        Seq::new(
            self.pending() as nat,
            |k: int| self.slot_msg(wadd(self.sp_head(), k as u64)),
        )
    }

    /// The representation invariant: a power-of-two ring whose header
    /// describes its file and whose pending count never exceeds the
    /// capacity.
    pub closed spec fn wf(&self) -> bool {
        &&& is_pow2_u64(self.capacity)
        &&& 4 <= self.slot_size
        &&& self.slot_size - 4 <= u32::MAX
        &&& self.mask == self.capacity - 1
        &&& self.bytes().len() == 48 + self.capacity * self.slot_size
        &&& self.bytes().len() <= usize::MAX
        &&& spec_u64_from_le_bytes(self.bytes().subrange(0, 8)) == QUEUE_MAGIC
        &&& spec_u64_from_le_bytes(self.bytes().subrange(8, 16)) == self.capacity
        &&& spec_u64_from_le_bytes(self.bytes().subrange(16, 24)) == self.slot_size
        &&& spec_u64_from_le_bytes(self.bytes().subrange(40, 48)) == self.mask
        &&& self.pending() <= self.capacity
    }

    /// Bounds every slot access needs: a slot sits fully inside the data
    /// region.
    proof fn lemma_slot_in_range(&self, j: u64)
        requires
            self.wf(),
        ensures
            48 <= self.slot_off(j),
            self.slot_off(j) + self.slot_size <= self.bytes().len(),
            0 <= (j as int % self.capacity as int) < self.capacity as int,
    {
        lemma_pow2_divides(self.capacity);
        let c = self.capacity as int;
        let idx = j as int % c;
        vstd::arithmetic::div_mod::lemma_mod_bound(j as int, c);
        assert(idx * self.slot_size + self.slot_size <= c * self.slot_size) by (nonlinear_arith)
            requires
                0 <= idx,
                idx < c,
                self.slot_size > 0,
        ;
        assert(idx * self.slot_size >= 0) by (nonlinear_arith)
            requires
                0 <= idx,
                self.slot_size > 0,
        ;
    }

    /// Distinct slot indices occupy disjoint byte ranges.
    proof fn lemma_slots_disjoint(&self, j1: u64, j2: u64)
        requires
            self.wf(),
            j1 as int % self.capacity as int != j2 as int % self.capacity as int,
        ensures
            self.slot_off(j1) + self.slot_size <= self.slot_off(j2) || self.slot_off(j2)
                + self.slot_size <= self.slot_off(j1),
    {
        let c = self.capacity as int;
        let i1 = j1 as int % c;
        let i2 = j2 as int % c;
        vstd::arithmetic::div_mod::lemma_mod_bound(j1 as int, c);
        vstd::arithmetic::div_mod::lemma_mod_bound(j2 as int, c);
        if i1 < i2 {
            assert((i1 + 1) * self.slot_size <= i2 * self.slot_size) by (nonlinear_arith)
                requires
                    i1 + 1 <= i2,
                    self.slot_size > 0,
            ;
            assert(i1 * self.slot_size + self.slot_size == (i1 + 1) * self.slot_size)
                by (nonlinear_arith);
        } else {
            assert((i2 + 1) * self.slot_size <= i1 * self.slot_size) by (nonlinear_arith)
                requires
                    i2 + 1 <= i1,
                    self.slot_size > 0,
            ;
            assert(i2 * self.slot_size + self.slot_size == (i2 + 1) * self.slot_size)
                by (nonlinear_arith);
        }
    }

    /// Pending logical indices land on pairwise distinct slots, and apart
    /// from the one being written.
    proof fn lemma_pending_slots_distinct(&self, k1: u64, k2: u64)
        requires
            self.wf(),
            k1 < k2,
            k2 < self.capacity,
        ensures
            wadd(self.sp_head(), k1) as int % self.capacity as int != wadd(
                self.sp_head(),
                k2,
            ) as int % self.capacity as int,
    {
        let h = self.sp_head() as int;
        let c = self.capacity as int;
        let n = pow2(64) as int;
        lemma_pow2_divides(self.capacity);
        lemma_wrap_mod(h + k1, self.capacity);
        lemma_wrap_mod(h + k2, self.capacity);
        assert(wadd(self.sp_head(), k1) as int == (h + k1) % n) by {
            vstd::arithmetic::power2::lemma2_to64_rest();
        }
        assert(wadd(self.sp_head(), k2) as int == (h + k2) % n) by {
            vstd::arithmetic::power2::lemma2_to64_rest();
        }
        assert(((h + k1) % n) % c == (h + k1) % c);
        assert(((h + k2) % n) % c == (h + k2) % c);
        if (h + k1) % c == (h + k2) % c {
            vstd::arithmetic::div_mod::lemma_mod_equivalence(h + k2, h + k1, c);
            assert(((h + k2) - (h + k1)) % c == 0);
            assert((k2 - k1) as int % c == 0);
            assert((k2 - k1) as int % c == k2 - k1) by {
                vstd::arithmetic::div_mod::lemma_small_mod((k2 - k1) as nat, c as nat);
            }
            assert(false);
        }
    }
}

} // verus!

// ---------- creating and opening ----------

verus! {

/// Writing does not disturb bytes outside the written range.
proof fn lemma_write_preserves(s: Seq<u8>, off: int, d: Seq<u8>, a: int, b: int)
    requires
        0 <= a <= b <= s.len(),
        0 <= off,
        off + d.len() <= s.len(),
        b <= off || off + d.len() <= a,
    ensures
        spec_write_bytes(s, off, d).subrange(a, b) == s.subrange(a, b),
{
    assert(spec_write_bytes(s, off, d).subrange(a, b) =~= s.subrange(a, b));
}

/// The written range reads back as what was written.
proof fn lemma_write_reads_back(s: Seq<u8>, off: int, d: Seq<u8>)
    requires
        0 <= off,
        off + d.len() <= s.len(),
    ensures
        spec_write_bytes(s, off, d).subrange(off, off + d.len()) == d,
{
    assert(spec_write_bytes(s, off, d).subrange(off, off + d.len()) =~= d);
}

/// Whether `x` is a power of two.
fn is_power_of_two_u64(x: u64) -> (r: bool)
    ensures
        r == is_pow2_u64(x),
{
    if x == 0 {
        proof {
            if is_pow2_u64(x) {
                let k = choose|k: nat| k <= 63 && x == pow2(k);
                vstd::arithmetic::power2::lemma_pow2_pos(k);
            }
        }
        return false;
    }
    let mut p: u64 = 1;
    let ghost mut k: nat = 0;
    proof {
        vstd::arithmetic::power2::lemma2_to64();
    }
    while p < x && p <= u64::MAX / 2
        invariant
            p == pow2(k),
            k <= 63,
            forall|j: nat| j < k ==> pow2(j) < x,
            x >= 1,
            p >= 1,
        decreases (if p < x {
            x - p
        } else {
            0int
        }),
    {
        proof {
            vstd::arithmetic::power2::lemma_pow2_adds(k, 1);
            vstd::arithmetic::power2::lemma2_to64();
            assert(pow2(k + 1) == pow2(k) * 2);
            assert(k + 1 <= 63) by {
                vstd::arithmetic::power2::lemma2_to64_rest();
                if k == 63 {
                    assert(p == pow2(63));
                    assert(pow2(63) == 0x8000000000000000);
                }
            }
        }
        p = p * 2;
        proof {
            k = k + 1;
        }
    }
    if p == x {
        proof {
            assert(is_pow2_u64(x));
        }
        true
    } else {
        proof {
            if is_pow2_u64(x) {
                let k2 = choose|k2: nat| k2 <= 63 && x == pow2(k2);
                if p > x {
                    if k2 < k {
                        assert(pow2(k2) < x);
                    } else if k2 > k {
                        vstd::arithmetic::power2::lemma_pow2_strictly_increases(k, k2);
                    }
                } else {
                    // p < x and p is past half the range: p is the top power
                    assert(p > u64::MAX / 2);
                    vstd::arithmetic::power2::lemma2_to64_rest();
                    assert(k == 63) by {
                        if k < 63 {
                            vstd::arithmetic::power2::lemma_pow2_strictly_increases(k, 63);
                            assert(pow2(63) == 0x8000000000000000);
                        }
                    }
                    if k2 < 63 {
                        vstd::arithmetic::power2::lemma_pow2_strictly_increases(k2, 63);
                    }
                    assert(pow2(k2) <= pow2(63));
                    assert(pow2(63) == 0x8000000000000000);
                    assert(x <= p);
                }
                assert(false);
            }
        }
        false
    }
}

impl MmapQueue {
    /// Make the queue state over a fresh map: zero-fill the slot region and
    /// write the header describing `capacity` slots of `4 + max_payload`
    /// bytes, with both counters at zero.
    fn init(mut map: memmap2::MmapMut, capacity: u64, slot_size: u64) -> (r: MmapQueue)
        requires
            is_pow2_u64(capacity),
            4 <= slot_size,
            slot_size - 4 <= u32::MAX,
            mmap_bytes(map).len() == 48 + capacity * slot_size,
            mmap_bytes(map).len() <= usize::MAX,
        ensures
            r.wf(),
            r.spec_capacity() == capacity,
            r.spec_max_payload() == slot_size - 4,
            r.msgs() == Seq::<Option<Seq<u8>>>::empty(),
            r.bytes().len() == 48 + capacity * slot_size,
            forall|i: int| 48 <= i < r.bytes().len() ==> #[trigger] r.bytes()[i] == 0u8,
    {
        proof {
            lemma_pow2_divides(capacity);
            assert(48 + capacity * slot_size >= 52) by (nonlinear_arith)
                requires
                    capacity >= 1,
                    slot_size >= 4,
            ;
        }
        let len = mmap_len(&map);
        let zeros = vec![0u8; len - 48];
        mmap_write(&mut map, 48, zeros.as_slice());
        let ghost b1 = mmap_bytes(map);
        let mut header: Vec<u8> = Vec::new();
        let mut b0 = u64_to_le_bytes(QUEUE_MAGIC);
        let mut b1v = u64_to_le_bytes(capacity);
        let mut b2 = u64_to_le_bytes(slot_size);
        let mut b3 = u64_to_le_bytes(0);
        let mut b4 = u64_to_le_bytes(0);
        let mut b5 = u64_to_le_bytes(capacity - 1);
        header.append(&mut b0);
        header.append(&mut b1v);
        header.append(&mut b2);
        header.append(&mut b3);
        header.append(&mut b4);
        header.append(&mut b5);
        mmap_write(&mut map, 0, header.as_slice());
        let r = MmapQueue { map, capacity, slot_size, mask: capacity - 1 };
        proof {
            let hb = header@;
            let b = r.bytes();
            lemma_write_reads_back(b1, 0, hb);
            assert(b.subrange(0, 48) == hb);
            lemma_auto_spec_u64_to_from_le_bytes();
            assert(b.subrange(0, 8) =~= hb.subrange(0, 8));
            assert(hb.subrange(0, 8) =~= spec_u64_to_le_bytes(QUEUE_MAGIC));
            assert(b.subrange(8, 16) =~= spec_u64_to_le_bytes(capacity));
            assert(b.subrange(16, 24) =~= spec_u64_to_le_bytes(slot_size));
            assert(b.subrange(24, 32) =~= spec_u64_to_le_bytes(0));
            assert(b.subrange(32, 40) =~= spec_u64_to_le_bytes(0));
            assert(b.subrange(40, 48) =~= spec_u64_to_le_bytes((capacity - 1) as u64));
            assert(r.sp_head() == 0);
            assert(r.sp_tail() == 0);
            assert(r.pending() == 0);
            assert(r.msgs() =~= Seq::<Option<Seq<u8>>>::empty());
            assert forall|i: int| 48 <= i < b.len() implies #[trigger] b[i] == 0u8 by {
                assert(b[i] == b1[i]);
                assert(b1[i] == zeros@[i - 48]);
            }
        }
        r
    }

    /// Create a fresh in-memory queue with `capacity` slots, each able to
    /// carry payloads of up to `max_payload` bytes. The capacity must be a
    /// power of two and the file must fit the address space; given that,
    /// only the operating system's refusal to map can stop it.
    pub fn create(capacity: u64, max_payload: u64) -> (r: Result<MmapQueue, QueueError>)
        ensures
            !is_pow2_u64(capacity) <==> r == Err::<MmapQueue, QueueError>(
                QueueError::CapacityNotPowerOfTwo,
            ),
            r == Err::<MmapQueue, QueueError>(QueueError::TooLarge) <==> (is_pow2_u64(capacity) && (
            max_payload > u32::MAX || 48 + capacity * (4 + max_payload) > usize::MAX)),
            match r {
                Ok(q) => {
                    &&& q.wf()
                    &&& q.spec_capacity() == capacity
                    &&& q.spec_max_payload() == max_payload
                    &&& q.msgs() == Seq::<Option<Seq<u8>>>::empty()
                    &&& q.bytes().len() == 48 + capacity * (4 + max_payload)
                    &&& forall|i: int| 48 <= i < q.bytes().len() ==> #[trigger] q.bytes()[i] == 0u8
                },
                Err(e) => e == QueueError::CapacityNotPowerOfTwo || e == QueueError::TooLarge || e
                    == QueueError::MapFailed,
            },
    {
        if !is_power_of_two_u64(capacity) {
            return Err(QueueError::CapacityNotPowerOfTwo);
        }
        if max_payload > 0xffffffff {
            return Err(QueueError::TooLarge);
        }
        let slot_size = match 4u64.checked_add(max_payload) {
            Some(s) => s,
            None => {
                return Err(QueueError::TooLarge);
            },
        };
        let data = match capacity.checked_mul(slot_size) {
            Some(d) => d,
            None => {
                return Err(QueueError::TooLarge);
            },
        };
        let total = match 48u64.checked_add(data) {
            Some(t) => t,
            None => {
                return Err(QueueError::TooLarge);
            },
        };
        if total > usize::MAX as u64 {
            return Err(QueueError::TooLarge);
        }
        let map = match map_anon(total as usize) {
            Ok(m) => m,
            Err(e) => {
                return Err(e);
            },
        };
        Ok(Self::init(map, capacity, slot_size))
    }

    /// Take over an existing map and validate it as a queue: it succeeds
    /// exactly when the bytes hold a valid header — the magic, the
    /// power-of-two capacity, the slot size, the mask, the file size and the
    /// pending count all agree — and then the counters, and so any pending
    /// messages, are taken as found.
    pub fn open(map: memmap2::MmapMut) -> (r: Result<MmapQueue, QueueError>)
        ensures
            r is Ok <==> header_ok(mmap_bytes(map)),
            match r {
                Ok(q) => {
                    &&& q.wf()
                    &&& q.bytes() == mmap_bytes(map)
                    &&& q.spec_capacity() == hdr_capacity(mmap_bytes(map))
                    &&& q.spec_max_payload() == hdr_slot_size(mmap_bytes(map)) - 4
                },
                Err(_) => true,
            },
    {
        let ghost bm = mmap_bytes(map);
        let len = mmap_len(&map);
        if len < 48 {
            return Err(QueueError::TooSmall);
        }
        let hb = mmap_read(&map, 0, 48);
        let magic = u64_from_le_bytes(vstd::slice::slice_subrange(hb.as_slice(), 0, 8));
        let capacity = u64_from_le_bytes(vstd::slice::slice_subrange(hb.as_slice(), 8, 16));
        let slot_size = u64_from_le_bytes(vstd::slice::slice_subrange(hb.as_slice(), 16, 24));
        let head = u64_from_le_bytes(vstd::slice::slice_subrange(hb.as_slice(), 24, 32));
        let tail = u64_from_le_bytes(vstd::slice::slice_subrange(hb.as_slice(), 32, 40));
        let mask = u64_from_le_bytes(vstd::slice::slice_subrange(hb.as_slice(), 40, 48));
        proof {
            assert(hb@ == bm.subrange(0, 48));
            assert(hb@.subrange(0, 8) =~= bm.subrange(0, 8));
            assert(hb@.subrange(8, 16) =~= bm.subrange(8, 16));
            assert(hb@.subrange(16, 24) =~= bm.subrange(16, 24));
            assert(hb@.subrange(24, 32) =~= bm.subrange(24, 32));
            assert(hb@.subrange(32, 40) =~= bm.subrange(32, 40));
            assert(hb@.subrange(40, 48) =~= bm.subrange(40, 48));
            assert(magic == hdr_magic(bm));
            assert(capacity == hdr_capacity(bm));
            assert(slot_size == hdr_slot_size(bm));
            assert(head == hdr_head(bm));
            assert(tail == hdr_tail(bm));
            assert(mask == hdr_mask(bm));
        }
        if magic != QUEUE_MAGIC {
            return Err(QueueError::MagicMismatch);
        }
        if !is_power_of_two_u64(capacity) {
            return Err(QueueError::BadHeader);
        }
        if slot_size < 4 || slot_size - 4 > 0xffffffff {
            return Err(QueueError::BadHeader);
        }
        proof {
            lemma_pow2_divides(capacity);
        }
        if mask != capacity - 1 {
            return Err(QueueError::BadHeader);
        }
        let data = match capacity.checked_mul(slot_size) {
            Some(d) => d,
            None => {
                proof {
                    assert(!header_ok(bm)) by {
                        if header_ok(bm) {
                            assert(bm.len() == 48 + capacity * slot_size);
                            assert(bm.len() <= usize::MAX);
                        }
                    }
                }
                return Err(QueueError::SizeMismatch);
            },
        };
        let expected = match 48u64.checked_add(data) {
            Some(t) => t,
            None => {
                proof {
                    assert(!header_ok(bm)) by {
                        if header_ok(bm) {
                            assert(bm.len() == 48 + capacity * slot_size);
                            assert(bm.len() <= usize::MAX);
                        }
                    }
                }
                return Err(QueueError::SizeMismatch);
            },
        };
        if expected != len as u64 {
            return Err(QueueError::SizeMismatch);
        }
        if tail.wrapping_sub(head) > capacity {
            return Err(QueueError::BadHeader);
        }
        let r = MmapQueue { map, capacity, slot_size, mask };
        proof {
            let b = r.bytes();
            assert(hb@ == b.subrange(0, 48));
            assert(b.subrange(0, 8) =~= hb@.subrange(0, 8));
            assert(b.subrange(8, 16) =~= hb@.subrange(8, 16));
            assert(b.subrange(16, 24) =~= hb@.subrange(16, 24));
            assert(b.subrange(24, 32) =~= hb@.subrange(24, 32));
            assert(b.subrange(32, 40) =~= hb@.subrange(32, 40));
            assert(b.subrange(40, 48) =~= hb@.subrange(40, 48));
            assert(header_ok(bm));
        }
        Ok(r)
    }
}

} // verus!

// ---------- the queue discipline ----------

verus! {

impl MmapQueue {
    /// The capacity is at most 2^63, so the pending count never reaches the
    /// wrap-around of the 64-bit counters.
    proof fn lemma_capacity_small(&self)
        requires
            self.wf(),
        ensures
            1 <= self.capacity <= 0x8000000000000000,
    {
        lemma_pow2_divides(self.capacity);
        let k = choose|k: nat| k <= 63 && self.capacity == pow2(k);
        vstd::arithmetic::power2::lemma2_to64_rest();
        if k < 63 {
            vstd::arithmetic::power2::lemma_pow2_strictly_increases(k, 63);
        }
        assert(pow2(63) == 0x8000000000000000);
    }

    /// Write `payload` into the slot at the tail and publish the new tail.
    /// Fails on a payload over the slot's capacity and on a full ring, and
    /// succeeds otherwise.
    pub fn enqueue(&mut self, payload: &[u8]) -> (r: Result<(), QueueError>)
        requires
            old(self).wf(),
        ensures
            final(self).wf(),
            final(self).spec_capacity() == old(self).spec_capacity(),
            final(self).spec_max_payload() == old(self).spec_max_payload(),
            payload@.len() > old(self).spec_max_payload() ==> r == Err::<(), QueueError>(
                QueueError::PayloadTooLarge,
            ) && final(self).msgs() == old(self).msgs(),
            payload@.len() <= old(self).spec_max_payload() && old(self).msgs().len() == old(self).spec_capacity() ==> r == Err::<(), QueueError>(QueueError::Overflow) && final(self).msgs() == old(self).msgs(),
            payload@.len() <= old(self).spec_max_payload() && old(self).msgs().len() < old(self).spec_capacity() ==> r == Ok::<(), QueueError>(()) && final(self).msgs() == old(self).msgs().push(Some(payload@)),
            r is Ok ==> final(self).msgs() == old(self).msgs().push(Some(payload@)),
            r is Err ==> final(self).msgs() == old(self).msgs(),
            old(self).msgs().len() <= old(self).spec_capacity(),
    {
        let ghost q0 = *self;
        proof {
            q0.lemma_capacity_small();
        }
        let max = self.slot_size - 4;
        if payload.len() as u64 > max {
            return Err(QueueError::PayloadTooLarge);
        }
        let hb = mmap_read(&self.map, 24, 8);
        let head = u64_from_le_bytes(hb.as_slice());
        let tb = mmap_read(&self.map, 32, 8);
        let tail = u64_from_le_bytes(tb.as_slice());
        proof {
            assert(hb@ =~= q0.bytes().subrange(24, 32));
            assert(tb@ =~= q0.bytes().subrange(32, 40));
            assert(head == q0.sp_head());
            assert(tail == q0.sp_tail());
            lemma_wsub_step(tail, head);
        }
        let next_tail = tail.wrapping_add(1);
        if next_tail.wrapping_sub(head) > self.capacity {
            proof {
                assert(q0.pending() == q0.capacity);
            }
            return Err(QueueError::Overflow);
        }
        proof {
            assert(q0.pending() < q0.capacity);
            self.lemma_slot_in_range(tail);
            assert((tail as int % self.capacity as int) * self.slot_size + self.slot_size
                <= self.capacity as int * self.slot_size) by (nonlinear_arith)
                requires
                    0 <= (tail as int % self.capacity as int) < self.capacity as int,
                    self.slot_size > 0,
            ;
        }
        let idx = tail % self.capacity;
        let off64 = 48 + idx * self.slot_size;
        let off = off64 as usize;
        let mut slot = u32_to_le_bytes(payload.len() as u32);
        slot.extend_from_slice(payload);
        let pad_len = (max as usize) - payload.len();
        let mut zeros = vec![0u8; pad_len];
        slot.append(&mut zeros);
        proof {
            assert(slot@.len() == self.slot_size);
            assert(slot@.subrange(0, 4) =~= spec_u32_to_le_bytes(payload@.len() as u32));
            assert(slot@.subrange(4, 4 + payload@.len() as int) =~= payload@);
        }
        mmap_write(&mut self.map, off, slot.as_slice());
        let ntb = u64_to_le_bytes(next_tail);
        mmap_write(&mut self.map, 32, ntb.as_slice());
        proof {
            self.lemma_enqueue_ok(q0, payload@, slot@, tail, head);
        }
        Ok(())
    }

    /// The byte-level consequences of writing one slot and publishing the
    /// tail.
    #[verifier::rlimit(100)]
    proof fn lemma_enqueue_ok(&self, q0: Self, payload: Seq<u8>, slot: Seq<u8>, tail: u64, head: u64)
        requires
            q0.wf(),
            self.capacity == q0.capacity,
            self.slot_size == q0.slot_size,
            self.mask == q0.mask,
            head == q0.sp_head(),
            tail == q0.sp_tail(),
            q0.pending() < q0.capacity,
            payload.len() <= q0.slot_size - 4,
            slot.len() == q0.slot_size,
            slot.subrange(0, 4) == spec_u32_to_le_bytes(payload.len() as u32),
            slot.subrange(4, 4 + payload.len() as int) == payload,
            self.bytes() == spec_write_bytes(
                spec_write_bytes(q0.bytes(), q0.slot_off(tail), slot),
                32,
                spec_u64_to_le_bytes(wadd(tail, 1)),
            ),
        ensures
            self.wf(),
            self.msgs() == q0.msgs().push(Some(payload)),
    {
        lemma_auto_spec_u64_to_from_le_bytes();
        lemma_auto_spec_u32_to_from_le_bytes();
        q0.lemma_capacity_small();
        q0.lemma_slot_in_range(tail);
        lemma_wsub_step(tail, head);
        let b0 = q0.bytes();
        let b1 = spec_write_bytes(b0, q0.slot_off(tail), slot);
        let b2 = self.bytes();
        let off = q0.slot_off(tail);
        let tl = spec_u64_to_le_bytes(wadd(tail, 1));
        assert(b1.len() == b0.len());
        assert(b2.len() == b0.len());
        // header fields other than the tail are untouched
        lemma_write_preserves(b0, off, slot, 0, 8);
        lemma_write_preserves(b1, 32, tl, 0, 8);
        lemma_write_preserves(b0, off, slot, 8, 16);
        lemma_write_preserves(b1, 32, tl, 8, 16);
        lemma_write_preserves(b0, off, slot, 16, 24);
        lemma_write_preserves(b1, 32, tl, 16, 24);
        lemma_write_preserves(b0, off, slot, 24, 32);
        lemma_write_preserves(b1, 32, tl, 24, 32);
        lemma_write_preserves(b0, off, slot, 40, 48);
        lemma_write_preserves(b1, 32, tl, 40, 48);
        // the tail reads back
        lemma_write_reads_back(b1, 32, tl);
        assert(b2.subrange(32, 40) == tl);
        assert(self.sp_tail() == wadd(tail, 1));
        assert(self.sp_head() == head);
        assert(self.pending() == q0.pending() + 1);
        // the written slot reads back
        lemma_write_reads_back(b0, off, slot);
        assert(b1.subrange(off, off + q0.slot_size) == slot);
        lemma_write_preserves(b1, 32, tl, off, off + q0.slot_size);
        assert(b2.subrange(off, off + q0.slot_size) == slot);
        assert(wadd(head, q0.pending()) == tail);
        assert(self.slot_off(tail) == off);
        assert(b2.subrange(off, off + 4) =~= slot.subrange(0, 4));
        assert(self.slot_len(tail) == payload.len());
        assert(b2.subrange(off + 4, off + 4 + payload.len() as int) =~= slot.subrange(
            4,
            4 + payload.len() as int,
        ));
        assert(self.slot_msg(tail) == Some(payload));
        // older slots are untouched
        assert forall|k: u64| k < q0.pending() implies self.slot_msg(wadd(head, k))
            == q0.slot_msg(wadd(head, k)) by {
            let j = wadd(head, k);
            q0.lemma_pending_slots_distinct(k, q0.pending());
            q0.lemma_slots_disjoint(j, tail);
            q0.lemma_slot_in_range(j);
            let joff = q0.slot_off(j);
            assert(self.slot_off(j) == joff);
            lemma_write_preserves(b0, off, slot, joff, joff + q0.slot_size);
            lemma_write_preserves(b1, 32, tl, joff, joff + q0.slot_size);
            assert(b2.subrange(joff, joff + q0.slot_size) == b0.subrange(
                joff,
                joff + q0.slot_size,
            ));
            assert(b2.subrange(joff, joff + 4) =~= b0.subrange(joff, joff + 4)) by {
                assert(b2.subrange(joff, joff + 4) =~= b2.subrange(joff, joff + q0.slot_size)
                    .subrange(0, 4));
                assert(b0.subrange(joff, joff + 4) =~= b0.subrange(joff, joff + q0.slot_size)
                    .subrange(0, 4));
            }
            assert(self.slot_len(j) == q0.slot_len(j));
            if q0.slot_len(j) + 4 <= q0.slot_size {
                let l = q0.slot_len(j) as int;
                assert(b2.subrange(joff + 4, joff + 4 + l) =~= b0.subrange(joff + 4, joff + 4 + l))
                    by {
                    assert(b2.subrange(joff + 4, joff + 4 + l) =~= b2.subrange(
                        joff,
                        joff + q0.slot_size,
                    ).subrange(4, 4 + l));
                    assert(b0.subrange(joff + 4, joff + 4 + l) =~= b0.subrange(
                        joff,
                        joff + q0.slot_size,
                    ).subrange(4, 4 + l));
                }
            }
        }
        assert(self.msgs() =~= q0.msgs().push(Some(payload))) by {
            assert forall|k: int| 0 <= k < q0.pending() implies self.msgs()[k] == q0.msgs()[k] by {
                assert(self.slot_msg(wadd(head, k as u64)) == q0.slot_msg(wadd(head, k as u64)));
            }
            assert(self.msgs()[q0.pending() as int] == self.slot_msg(wadd(head, q0.pending())));
        }
    }

    /// Take the message at the head, if any, and advance past it. `None`
    /// means the queue is empty; a slot with a broken length prefix is
    /// reported and left in place.
    pub fn dequeue(&mut self) -> (r: Result<Option<Vec<u8>>, QueueError>)
        requires
            old(self).wf(),
        ensures
            final(self).wf(),
            final(self).spec_capacity() == old(self).spec_capacity(),
            final(self).spec_max_payload() == old(self).spec_max_payload(),
            old(self).msgs().len() == 0 ==> r == Ok::<Option<Vec<u8>>, QueueError>(None) && final(self).msgs() == old(self).msgs(),
            old(self).msgs().len() > 0 && old(self).msgs()[0] is Some ==> {
                &&& r is Ok
                &&& r->Ok_0 is Some
                &&& r->Ok_0->Some_0@ == old(self).msgs()[0]->Some_0
                &&& final(self).msgs() == old(self).msgs().drop_first()
            },
            old(self).msgs().len() > 0 && old(self).msgs()[0] is None ==> r == Err::<
                Option<Vec<u8>>,
                QueueError,
            >(QueueError::CorruptSlot) && final(self).msgs() == old(self).msgs(),
            r is Err ==> final(self).msgs() == old(self).msgs(),
            r is Ok && r->Ok_0 is None ==> final(self).msgs() == old(self).msgs() && old(self).msgs().len() == 0,
            r is Ok && r->Ok_0 is Some ==> old(self).msgs().len() > 0 && old(self).msgs()[0] is Some && r->Ok_0->Some_0@ == old(self).msgs()[0]->Some_0 && final(self).msgs() == old(self).msgs().drop_first(),
    {
        let ghost q0 = *self;
        proof {
            q0.lemma_capacity_small();
        }
        let hb = mmap_read(&self.map, 24, 8);
        let head = u64_from_le_bytes(hb.as_slice());
        let tb = mmap_read(&self.map, 32, 8);
        let tail = u64_from_le_bytes(tb.as_slice());
        proof {
            assert(hb@ =~= q0.bytes().subrange(24, 32));
            assert(tb@ =~= q0.bytes().subrange(32, 40));
            assert(head == q0.sp_head());
            assert(tail == q0.sp_tail());
            lemma_wsub_step(tail, head);
        }
        if tail == head {
            return Ok(None);
        }
        proof {
            assert(q0.pending() > 0);
            self.lemma_slot_in_range(head);
            assert((head as int % self.capacity as int) * self.slot_size + self.slot_size
                <= self.capacity as int * self.slot_size) by (nonlinear_arith)
                requires
                    0 <= (head as int % self.capacity as int) < self.capacity as int,
                    self.slot_size > 0,
            ;
            assert(wadd(head, 0) == head);
        }
        let idx = head % self.capacity;
        let off64 = 48 + idx * self.slot_size;
        let off = off64 as usize;
        let lb = mmap_read(&self.map, off, 4);
        let len = u32_from_le_bytes(lb.as_slice());
        proof {
            assert(lb@ =~= q0.bytes().subrange(q0.slot_off(head), q0.slot_off(head) + 4));
            assert(len == q0.slot_len(head));
        }
        if len as u64 > self.slot_size - 4 {
            proof {
                assert(q0.slot_msg(head) is None);
                assert(q0.msgs()[0] == q0.slot_msg(head));
            }
            return Err(QueueError::CorruptSlot);
        }
        let out = mmap_read(&self.map, off + 4, len as usize);
        let next_head = head.wrapping_add(1);
        let nhb = u64_to_le_bytes(next_head);
        mmap_write(&mut self.map, 24, nhb.as_slice());
        proof {
            self.lemma_dequeue_ok(q0, head, tail);
            assert(out@ == q0.msgs()[0]->Some_0);
        }
        Ok(Some(out))
    }

    /// The byte-level consequences of advancing the head.
    proof fn lemma_dequeue_ok(&self, q0: Self, head: u64, tail: u64)
        requires
            q0.wf(),
            self.capacity == q0.capacity,
            self.slot_size == q0.slot_size,
            self.mask == q0.mask,
            head == q0.sp_head(),
            tail == q0.sp_tail(),
            q0.pending() > 0,
            q0.slot_msg(head) is Some,
            self.bytes() == spec_write_bytes(
                q0.bytes(),
                24,
                spec_u64_to_le_bytes(wadd(head, 1)),
            ),
        ensures
            self.wf(),
            self.msgs() == q0.msgs().drop_first(),
            q0.msgs()[0] == q0.slot_msg(head),
    {
        lemma_auto_spec_u64_to_from_le_bytes();
        q0.lemma_capacity_small();
        lemma_wsub_step(tail, head);
        let b0 = q0.bytes();
        let b2 = self.bytes();
        let hl = spec_u64_to_le_bytes(wadd(head, 1));
        assert(b2.len() == b0.len());
        lemma_write_preserves(b0, 24, hl, 0, 8);
        lemma_write_preserves(b0, 24, hl, 8, 16);
        lemma_write_preserves(b0, 24, hl, 16, 24);
        lemma_write_preserves(b0, 24, hl, 32, 40);
        lemma_write_preserves(b0, 24, hl, 40, 48);
        lemma_write_reads_back(b0, 24, hl);
        assert(b2.subrange(24, 32) == hl);
        assert(self.sp_head() == wadd(head, 1));
        assert(self.sp_tail() == tail);
        assert(self.pending() == q0.pending() - 1);
        // every slot is untouched
        assert forall|j: u64| true implies self.slot_msg(j) == q0.slot_msg(j) && self.slot_len(j)
            == q0.slot_len(j) by {
            q0.lemma_slot_in_range(j);
            let joff = q0.slot_off(j);
            lemma_write_preserves(b0, 24, hl, joff, joff + q0.slot_size);
            assert(b2.subrange(joff, joff + 4) =~= b0.subrange(joff, joff + 4)) by {
                assert(b2.subrange(joff, joff + 4) =~= b2.subrange(joff, joff + q0.slot_size)
                    .subrange(0, 4));
                assert(b0.subrange(joff, joff + 4) =~= b0.subrange(joff, joff + q0.slot_size)
                    .subrange(0, 4));
            }
            if q0.slot_len(j) + 4 <= q0.slot_size {
                let l = q0.slot_len(j) as int;
                assert(b2.subrange(joff + 4, joff + 4 + l) =~= b0.subrange(joff + 4, joff + 4 + l))
                    by {
                    assert(b2.subrange(joff + 4, joff + 4 + l) =~= b2.subrange(
                        joff,
                        joff + q0.slot_size,
                    ).subrange(4, 4 + l));
                    assert(b0.subrange(joff + 4, joff + 4 + l) =~= b0.subrange(
                        joff,
                        joff + q0.slot_size,
                    ).subrange(4, 4 + l));
                }
            }
        }
        assert(wadd(head, 0) == head);
        assert(q0.msgs()[0] == q0.slot_msg(head));
        assert(self.msgs() =~= q0.msgs().drop_first()) by {
            assert forall|k: int| 0 <= k < self.pending() implies self.msgs()[k] == q0.msgs()[k
                + 1] by {
                lemma_wadd_assoc(head, 1, k as u64);
                assert(wadd(wadd(head, 1), k as u64) == wadd(head, (k + 1) as u64));
                assert(self.slot_msg(wadd(wadd(head, 1), k as u64)) == q0.slot_msg(
                    wadd(head, (k + 1) as u64),
                ));
            }
        }
    }
}

} // verus!

// ---------- file-backed construction ----------

verus! {

impl MmapQueue {
    /// Initialise a queue over a map that arrived from elsewhere — a mapped
    /// file of exactly the expected size: the slot region is zero-filled,
    /// the header is written, and both counters start at zero. It succeeds
    /// exactly when the capacity is a power of two, the payload budget fits
    /// a length prefix, and the map's size matches.
    pub fn create_in(map: memmap2::MmapMut, capacity: u64, max_payload: u64) -> (r: Result<
        MmapQueue,
        QueueError,
    >)
        ensures
            r is Ok <==> (is_pow2_u64(capacity) && max_payload <= u32::MAX && mmap_bytes(map).len()
                == 48 + capacity * (4 + max_payload)),
            r == Err::<MmapQueue, QueueError>(QueueError::CapacityNotPowerOfTwo) <==> !is_pow2_u64(
                capacity,
            ),
            r == Err::<MmapQueue, QueueError>(QueueError::TooLarge) <==> (is_pow2_u64(capacity) && (
            max_payload > u32::MAX || 48 + capacity * (4 + max_payload) > u64::MAX)),
            r == Err::<MmapQueue, QueueError>(QueueError::SizeMismatch) <==> (is_pow2_u64(capacity)
                && max_payload <= u32::MAX && 48 + capacity * (4 + max_payload) <= u64::MAX
                && mmap_bytes(map).len() != 48 + capacity * (4 + max_payload)),
            match r {
                Ok(q) => {
                    &&& q.wf()
                    &&& q.spec_capacity() == capacity
                    &&& q.spec_max_payload() == max_payload
                    &&& q.msgs() == Seq::<Option<Seq<u8>>>::empty()
                    &&& q.bytes().len() == 48 + capacity * (4 + max_payload)
                    &&& forall|i: int| 48 <= i < q.bytes().len() ==> #[trigger] q.bytes()[i] == 0u8
                },
                Err(_) => true,
            },
    {
        let ghost bm = mmap_bytes(map);
        let len = mmap_len(&map);
        if !is_power_of_two_u64(capacity) {
            return Err(QueueError::CapacityNotPowerOfTwo);
        }
        if max_payload > 0xffffffff {
            return Err(QueueError::TooLarge);
        }
        let slot_size = match 4u64.checked_add(max_payload) {
            Some(s) => s,
            None => {
                return Err(QueueError::TooLarge);
            },
        };
        let data = match capacity.checked_mul(slot_size) {
            Some(d) => d,
            None => {
                return Err(QueueError::TooLarge);
            },
        };
        let total = match 48u64.checked_add(data) {
            Some(t) => t,
            None => {
                return Err(QueueError::TooLarge);
            },
        };
        if len as u64 != total {
            return Err(QueueError::SizeMismatch);
        }
        Ok(Self::init(map, capacity, slot_size))
    }
}

} // verus!
