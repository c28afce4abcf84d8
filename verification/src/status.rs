//! The durable status store: a checksum-indexed table recording per-page
//! completion of a download.
//!
//! The store is modeled as the owned image of its backing file: a 16-byte
//! header (`page_size` and `page_count`, little-endian `u64` each) followed
//! by one little-endian `u32` checksum slot per page. A slot value of 0
//! means "page not yet verified"; anything else is the CRC-32 of the page's
//! bytes as last written. The caller that owns the real file persists the
//! image: the whole file after `set_page`, and exactly the four bytes of a
//! slot after `update`, so that every state this store reports has a durable
//! counterpart.

use crate::pages::get_page_count;
use crate::pages::spec_page_count;
use vstd::bytes::lemma_auto_spec_u64_to_from_le_bytes;
use vstd::bytes::spec_u64_from_le_bytes;
use vstd::bytes::spec_u64_to_le_bytes;
use vstd::bytes::u64_from_le_bytes;
use vstd::bytes::u64_to_le_bytes;
use vstd::prelude::*;
use vstd::slice::slice_subrange;
use vstd::slice::slice_to_vec;

verus! {

/// Byte length of the status-file header.
pub const STATUS_HEADER: usize = 16;

/// The four little-endian bytes that encode a checksum slot.
pub open spec fn spec_slot_bytes(c: u32) -> Seq<u8> {
    seq![
        (c & 0xff) as u8,
        ((c >> 8) & 0xff) as u8,
        ((c >> 16) & 0xff) as u8,
        ((c >> 24) & 0xff) as u8,
    ]
}

/// The checksum read back from four little-endian bytes.
pub open spec fn spec_slot_value(s: Seq<u8>) -> u32
    recommends
        s.len() == 4,
{
    (s[0] as u32) | (s[1] as u32) << 8 | (s[2] as u32) << 16 | (s[3] as u32) << 24
}

/// Encoding a slot and reading it back yields the same checksum.
pub proof fn lemma_slot_roundtrip(c: u32)
    ensures
        spec_slot_bytes(c).len() == 4,
        spec_slot_value(spec_slot_bytes(c)) == c,
{
    assert(((c & 0xff) as u8) as u32 == (c & 0xff)) by (bit_vector);
    assert((((c >> 8) & 0xff) as u8) as u32 == ((c >> 8) & 0xff)) by (bit_vector);
    assert((((c >> 16) & 0xff) as u8) as u32 == ((c >> 16) & 0xff)) by (bit_vector);
    assert((((c >> 24) & 0xff) as u8) as u32 == ((c >> 24) & 0xff)) by (bit_vector);
    assert((c & 0xff) | ((c >> 8) & 0xff) << 8 | ((c >> 16) & 0xff) << 16 | ((c >> 24) & 0xff)
        << 24 == c) by (bit_vector);
}

/// Four zero bytes read back as the checksum 0.
pub proof fn lemma_slot_value_zero(s: Seq<u8>)
    requires
        s.len() == 4,
        forall|i: int| 0 <= i < 4 ==> s[i] == 0,
    ensures
        spec_slot_value(s) == 0,
{
    assert(0u32 | 0u32 << 8 | 0u32 << 16 | 0u32 << 24 == 0) by (bit_vector);
}

/// The slot sequence held in an image's table region.
pub open spec fn spec_slots_of(bytes: Seq<u8>, count: int) -> Seq<u32> {
    Seq::new(count as nat, |i: int| spec_slot_value(bytes.subrange(16 + 4 * i, 16 + 4 * i + 4)))
}

/// Whether `bytes` is a complete status-file image: more than a bare header,
/// and exactly one 4-byte slot after the header per page counted in the
/// header.
pub open spec fn spec_valid_image(bytes: Seq<u8>) -> bool {
    &&& bytes.len() > 16
    &&& bytes.len() == 16 + 4 * spec_u64_from_le_bytes(bytes.subrange(8, 16))
}

/// The page size stored in an image's header.
pub open spec fn spec_image_page_size(bytes: Seq<u8>) -> u64 {
    spec_u64_from_le_bytes(bytes.subrange(0, 8))
}

/// The page count stored in an image's header.
pub open spec fn spec_image_page_count(bytes: Seq<u8>) -> u64 {
    spec_u64_from_le_bytes(bytes.subrange(8, 16))
}

/// The abstract state of a status store: its page size and its checksum
/// slots, one per page.
#[verifier::ext_equal]
pub struct StatusView {
    pub page_size: u64,
    pub slots: Seq<u32>,
}

/// The state that opening a status file with these bytes yields. A file that
/// is absent, no longer than the header, or whose length disagrees with its
/// stored page count holds no progress: it opens as an uninitialized store
/// rather than failing, a deliberate leniency.
pub open spec fn spec_open(bytes: Seq<u8>) -> StatusView {
    if spec_valid_image(bytes) {
        StatusView {
            page_size: spec_image_page_size(bytes),
            slots: spec_slots_of(bytes, spec_image_page_count(bytes) as int),
        }
    } else {
        StatusView { page_size: 0, slots: Seq::empty() }
    }
}

/// The image after writing the four little-endian bytes of `crc` into the
/// slot for page `idx`, and nothing else.
pub open spec fn spec_store_bytes(bytes: Seq<u8>, idx: int, crc: u32) -> Seq<u8> {
    Seq::new(
        bytes.len(),
        |j: int|
            if 16 + 4 * idx <= j < 16 + 4 * idx + 4 {
                spec_slot_bytes(crc)[j - (16 + 4 * idx)]
            } else {
                bytes[j]
            },
    )
}

/// Rejections of a slot update.
#[derive(Clone, Copy, Debug, PartialEq, Eq, Structural)]
pub enum StatusError {
    /// The store holds no table yet.
    Uninitialized,
    /// The slot index lies beyond the table.
    OutOfRange,
}

/// A download's durable per-page checksum table.
pub struct Status {
    page_size: u64,
    data: Option<Vec<u8>>,
}

impl View for Status {
    type V = StatusView;

    closed spec fn view(&self) -> StatusView {
        match self.data {
            Option::Some(b) => StatusView {
                page_size: self.page_size,
                slots: spec_slots_of(b@, spec_image_page_count(b@) as int),
            },
            Option::None => StatusView { page_size: 0, slots: Seq::empty() },
        }
    }
}

impl Status {
    /// The image of the backing file that this store stands for; empty when
    /// the store is uninitialized.
    pub closed spec fn file_bytes(self) -> Seq<u8> {
        match self.data {
            Option::Some(b) => b@,
            Option::None => Seq::empty(),
        }
    }

    /// Well-formedness: an initialized store holds a complete image whose
    /// header matches the store's own page size; an uninitialized one holds
    /// nothing.
    pub closed spec fn wf(self) -> bool {
        match self.data {
            Option::Some(b) => spec_valid_image(b@) && self.page_size == spec_image_page_size(b@),
            Option::None => self.page_size == 0,
        }
    }

    /// Opens a store from the bytes of its backing file (empty when the file
    /// does not exist yet).
    pub fn new(bytes: Vec<u8>) -> (s: Status)
        ensures
            s.wf(),
            s@ == spec_open(bytes@),
            spec_valid_image(bytes@) ==> s.file_bytes() == bytes@,
    {
        if bytes.len() <= STATUS_HEADER {
            Status { page_size: 0, data: Option::None }
        } else {
            let psz = u64_from_le_bytes(slice_subrange(bytes.as_slice(), 0, 8));
            let cnt = u64_from_le_bytes(slice_subrange(bytes.as_slice(), 8, 16));
            let body: u64 = (bytes.len() - 16) as u64;
            proof {
                let b = body as int;
                let c = cnt as int;
                vstd::arithmetic::div_mod::lemma_fundamental_div_mod(b, 4);
                vstd::arithmetic::div_mod::lemma_mod_bound(b, 4);
            }
            if body % 4 == 0 && body / 4 == cnt {
                let s = Status { page_size: psz, data: Option::Some(bytes) };
                proof {
                    assert(s@ =~= spec_open(s.file_bytes()));
                }
                s
            } else {
                Status { page_size: 0, data: Option::None }
            }
        }
    }

    /// Initializes (or re-initializes) the table for pages of `size` bytes
    /// over a resource of `len` bytes: the image becomes a fresh header plus
    /// one zeroed slot per page. Checksums recorded earlier are discarded.
    /// The caller persists the whole new image.
    pub fn set_page(&mut self, size: u64, len: u64) -> (r: Result<(), StatusError>)
        requires
            size > 0,
            len > 0,
            16 + 4 * spec_page_count(len as int, size as int) <= usize::MAX,
        ensures
            r is Ok,
            final(self).wf(),
            final(self)@.page_size == size,
            final(self)@.slots =~= Seq::new(
                spec_page_count(len as int, size as int) as nat,
                |i: int| 0u32,
            ),
            final(self).file_bytes().len() == 16 + 4 * spec_page_count(len as int, size as int),
    {
        let count: u64 = get_page_count(len, size);
        proof {
            crate::pages::lemma_page_count_pos(len as int, size as int);
        }
        let total: usize = 16 + 4 * (count as usize);
        let mut buf: Vec<u8> = vec![0u8; total];
        let ps_bytes = u64_to_le_bytes(size);
        let cnt_bytes = u64_to_le_bytes(count);
        let mut i: usize = 0;
        while i < 8
            invariant
                0 <= i <= 8,
                buf.len() == total,
                total == 16 + 4 * count,
                ps_bytes.len() == 8,
                cnt_bytes.len() == 8,
                ps_bytes@ == spec_u64_to_le_bytes(size),
                cnt_bytes@ == spec_u64_to_le_bytes(count),
                forall|j: int| 0 <= j < i ==> buf[j] == ps_bytes[j],
                forall|j: int| 0 <= j < i ==> buf[8 + j] == cnt_bytes[j],
                forall|j: int| 16 <= j < total ==> buf[j] == 0,
            decreases 8 - i,
        {
            buf.set(i, ps_bytes[i]);
            buf.set(8 + i, cnt_bytes[i]);
            i = i + 1;
        }
        proof {
            lemma_auto_spec_u64_to_from_le_bytes();
            assert(buf@.subrange(0, 8) =~= ps_bytes@);
            assert(buf@.subrange(8, 16) =~= cnt_bytes@);
        }
        self.page_size = size;
        self.data = Option::Some(buf);
        proof {
            let b = self.file_bytes();
            assert forall|k: int|
                0 <= k < spec_page_count(len as int, size as int) implies spec_slots_of(
                b,
                spec_image_page_count(b) as int,
            )[k] == 0u32 by {
                lemma_slot_value_zero(b.subrange(16 + 4 * k, 16 + 4 * k + 4));
            }
            assert(self@.slots =~= Seq::new(
                spec_page_count(len as int, size as int) as nat,
                |i: int| 0u32,
            ));
        }
        Ok(())
    }

    /// Recomputes the page count for a resource of `len` bytes from the
    /// stored page size; used to hold an existing table against a freshly
    /// probed total length.
    pub fn get_page_len(&self, len: u64) -> (r: usize)
        requires
            self.wf(),
            self@.page_size != 0,
            spec_page_count(len as int, self@.page_size as int) <= usize::MAX,
        ensures
            r == spec_page_count(len as int, self@.page_size as int),
    {
        get_page_count(len, self.page_size) as usize
    }

    /// Records `crc` in the slot for page `idx`: the four bytes of that slot,
    /// and nothing else, change. The caller flushes exactly that byte range,
    /// so a store reopened from the written image observes the update. An
    /// out-of-range index, or a store with no table, is rejected.
    pub fn update(&mut self, idx: usize, crc: u32) -> (r: Result<(), StatusError>)
        requires
            old(self).wf(),
        ensures
            final(self).wf(),
            old(self)@.page_size == 0 ==> r == Err::<(), StatusError>(StatusError::Uninitialized) && final(self)@
                == old(self)@ && final(self).file_bytes() == old(self).file_bytes(),
            old(self)@.page_size != 0 && idx >= old(self)@.slots.len() ==> r == Err::<(), StatusError>(StatusError::OutOfRange) && final(self)@ == old(self)@ && final(self).file_bytes() == old(self).file_bytes(),
            old(self)@.page_size != 0 && idx < old(self)@.slots.len() ==> {
                &&& r is Ok
                &&& final(self)@.page_size == old(self)@.page_size
                &&& final(self)@.slots =~= old(self)@.slots.update(idx as int, crc)
                &&& final(self).file_bytes() =~= spec_store_bytes(
                    old(self).file_bytes(),
                    idx as int,
                    crc,
                )
            },
    {
        if self.page_size == 0 {
            return Err(StatusError::Uninitialized);
        }
        match &mut self.data {
            Option::None => {
                proof {
                    assert(false);
                }
                Err(StatusError::Uninitialized)
            },
            Option::Some(buf) => {
                let count: usize = (buf.len() - 16) / 4;
                proof {
                    assert(count == old(self)@.slots.len());
                }
                if idx >= count {
                    return Err(StatusError::OutOfRange);
                }
                let off: usize = 16 + 4 * idx;
                let b0: u8 = (crc & 0xff) as u8;
                let b1: u8 = ((crc >> 8) & 0xff) as u8;
                let b2: u8 = ((crc >> 16) & 0xff) as u8;
                let b3: u8 = ((crc >> 24) & 0xff) as u8;
                buf.set(off, b0);
                buf.set(off + 1, b1);
                buf.set(off + 2, b2);
                buf.set(off + 3, b3);
                proof {
                    let ob = old(self).file_bytes();
                    let nb = buf@;
                    assert(nb =~= spec_store_bytes(ob, idx as int, crc));
                    assert(nb.subrange(0, 8) =~= ob.subrange(0, 8));
                    assert(nb.subrange(8, 16) =~= ob.subrange(8, 16));
                    lemma_slot_roundtrip(crc);
                    assert(nb.subrange(16 + 4 * idx, 16 + 4 * idx + 4) =~= spec_slot_bytes(crc));
                    let n = old(self)@.slots.len() as int;
                    assert forall|k: int| 0 <= k < n implies spec_slots_of(nb, n)[k] == old(
                        self,
                    )@.slots.update(idx as int, crc)[k] by {
                        if k == idx {
                            assert(nb.subrange(16 + 4 * k, 16 + 4 * k + 4) =~= spec_slot_bytes(
                                crc,
                            ));
                        } else {
                            assert(nb.subrange(16 + 4 * k, 16 + 4 * k + 4) =~= ob.subrange(
                                16 + 4 * k,
                                16 + 4 * k + 4,
                            ));
                        }
                    }
                    assert(spec_slots_of(nb, n) =~= old(self)@.slots.update(idx as int, crc));
                }
                Ok(())
            },
        }
    }

    /// All checksum slots, index-ordered; empty for an uninitialized store.
    pub fn find_crc32(&self) -> (r: Vec<u32>)
        requires
            self.wf(),
        ensures
            r@ == self@.slots,
    {
        match &self.data {
            Option::None => Vec::new(),
            Option::Some(buf) => {
                let count: usize = (buf.len() - 16) / 4;
                let mut r: Vec<u32> = Vec::new();
                let mut i: usize = 0;
                while i < count
                    invariant
                        0 <= i <= count,
                        count == self@.slots.len(),
                        buf.len() == 16 + 4 * count,
                        buf@ == self.file_bytes(),
                        self.wf(),
                        r@ =~= self@.slots.subrange(0, i as int),
                    decreases count - i,
                {
                    let off: usize = 16 + 4 * i;
                    let v: u32 = (buf[off] as u32) | (buf[off + 1] as u32) << 8 | (buf[off
                        + 2] as u32) << 16 | (buf[off + 3] as u32) << 24;
                    proof {
                        assert(v == spec_slot_value(
                            self.file_bytes().subrange(16 + 4 * i, 16 + 4 * i + 4),
                        ));
                        assert(r@.push(v) =~= self@.slots.subrange(0, i + 1));
                    }
                    r.push(v);
                    i = i + 1;
                }
                proof {
                    assert(r@ =~= self@.slots);
                }
                r
            },
        }
    }

    /// True iff the store holds a table: a page size of 0 is the sentinel for
    /// "no prior progress".
    pub fn is_init(&self) -> (r: bool)
        requires
            self.wf(),
        ensures
            r == (self@.page_size != 0),
    {
        self.page_size != 0
    }

    /// The stored page size; 0 when uninitialized.
    pub fn get_size(&self) -> (r: u64)
        requires
            self.wf(),
        ensures
            r == self@.page_size,
    {
        self.page_size
    }

    /// A copy of the current backing-file image, for the caller that
    /// persists it.
    pub fn bytes(&self) -> (b: Vec<u8>)
        requires
            self.wf(),
        ensures
            b@ == self.file_bytes(),
    {
        match &self.data {
            Option::None => Vec::new(),
            Option::Some(buf) => slice_to_vec(buf.as_slice()),
        }
    }
}

/// Crash consistency: the backing bytes of a well-formed store reopen to
/// exactly the store's current state.
pub proof fn lemma_reopen(s: Status)
    requires
        s.wf(),
    ensures
        spec_open(s.file_bytes()) == s@,
{
    assert(spec_open(s.file_bytes()) =~= s@);
}

/// Crash consistency for a single update: once `update(idx, crc)` has
/// succeeded, a store reopened from the written image observes `crc` at
/// slot `idx`.
pub proof fn lemma_update_durable(s: Status, idx: int, crc: u32)
    requires
        s.wf(),
        0 <= idx < s@.slots.len(),
        s@.slots[idx] == crc,
    ensures
        spec_open(s.file_bytes()).slots[idx] == crc,
{
    lemma_reopen(s);
}

/// Idempotence: a second `update(idx, crc)` with the identical checksum
/// leaves both the slot table and the durable image exactly as the first
/// one left them.
pub proof fn lemma_update_idempotent(slots: Seq<u32>, bytes: Seq<u8>, idx: int, crc: u32)
    requires
        0 <= idx < slots.len(),
    ensures
        slots.update(idx, crc).update(idx, crc) == slots.update(idx, crc),
        spec_store_bytes(spec_store_bytes(bytes, idx, crc), idx, crc) == spec_store_bytes(
            bytes,
            idx,
            crc,
        ),
{
    assert(slots.update(idx, crc).update(idx, crc) =~= slots.update(idx, crc));
    assert(spec_store_bytes(spec_store_bytes(bytes, idx, crc), idx, crc) =~= spec_store_bytes(
        bytes,
        idx,
        crc,
    ));
}

} // verus!
