//! Download orchestration: the probe that reads a server's capabilities, the
//! decision between paged, single-stream, resumed and already-complete
//! downloads, the writer that lands fetched pages, and the resume verifier
//! that re-checks recorded pages against the bytes on disk.
//!
//! All network and file I/O stays outside the library: the caller performs
//! the requests and hands in status flags, header values, response bodies
//! and file images as plain values, and carries out the plan that `start`
//! returns.

use crate::checksum::crc32_of;
use crate::pages::get_page_count;
use crate::pages::last_page_len;
use crate::pages::lemma_pages_partition;
use crate::pages::spec_page_count;
use crate::pages::spec_page_end;
use crate::pages::spec_page_start;
use crate::status::Status;
use crate::status::StatusError;
use vstd::prelude::*;
use vstd::slice::slice_subrange;

verus! {

/// Default page size of a fresh checksum table, in bytes.
pub const DEFAULT_PAGE_SIZE: u64 = 1024;

/// A fresh download is paged only when the resource is longer than this.
pub const PAGED_THRESHOLD: u64 = 1024 * 1024;

/// Bound on fetched pages queued between the fetchers and the writer.
pub const CHANNEL_DEPTH: usize = 10;

/// Failures of the download layer. Other failure kinds surface elsewhere:
/// missing range support falls back to the single stream, a checksum
/// mismatch triggers a selective re-fetch, and a corrupt status file opens
/// as an uninitialized store.
#[derive(Clone, Copy, Debug, PartialEq, Eq, Structural)]
pub enum DownError {
    /// The transport failed or the response status was not a success.
    RequestError,
}

/// A fetched page: its index, its byte offset in the output file, and its
/// payload.
pub struct Pdata {
    pub index: usize,
    pub offset: u64,
    pub data: Vec<u8>,
}

/// One ranged fetch to perform: the page index and the inclusive HTTP byte
/// range, `u64::MAX` as `end` standing for an open-ended final range.
#[derive(Clone, Copy, Debug, PartialEq, Eq, Structural)]
pub struct PageJob {
    pub index: usize,
    pub start: u64,
    pub end: u64,
}

/// Whether every byte of `s` is an ASCII digit, and there is at least one.
pub open spec fn spec_all_digits(s: Seq<u8>) -> bool {
    s.len() > 0 && forall|i: int| 0 <= i < s.len() ==> 48 <= #[trigger] s[i] <= 57
}

/// The numeric value of a sequence of ASCII digits.
pub open spec fn spec_digits_value(s: Seq<u8>) -> int
    decreases s.len(),
{
    if s.len() == 0 {
        0
    } else {
        spec_digits_value(s.drop_last()) * 10 + (s.last() - 48)
    }
}

proof fn lemma_digits_value_nonneg(s: Seq<u8>)
    requires
        forall|i: int| 0 <= i < s.len() ==> 48 <= #[trigger] s[i],
    ensures
        spec_digits_value(s) >= 0,
    decreases s.len(),
{
    if s.len() > 0 {
        lemma_digits_value_nonneg(s.drop_last());
    }
}

/// A digit string is worth at least any of its prefixes.
proof fn lemma_digits_value_prefix(s: Seq<u8>, j: int)
    requires
        0 <= j <= s.len(),
        forall|i: int| 0 <= i < s.len() ==> 48 <= #[trigger] s[i],
    ensures
        spec_digits_value(s.take(j)) <= spec_digits_value(s),
    decreases s.len() - j,
{
    if j < s.len() {
        assert(s.take(j + 1).drop_last() =~= s.take(j));
        assert(forall|i: int| 0 <= i < s.take(j).len() ==> 48 <= #[trigger] s.take(j)[i]);
        lemma_digits_value_nonneg(s.take(j));
        assert(spec_digits_value(s.take(j + 1)) == spec_digits_value(s.take(j)) * 10 + (s[j] - 48));
        lemma_digits_value_prefix(s, j + 1);
    } else {
        assert(s.take(j) =~= s);
    }
}

/// Parses an unsigned decimal integer: the result exists iff `s` is a
/// non-empty string of ASCII digits whose value fits in a `u64`, and is then
/// that value.
pub fn parse_u64(s: &Vec<u8>) -> (r: Option<u64>)
    ensures
        r is Some <==> (spec_all_digits(s@) && spec_digits_value(s@) <= u64::MAX),
        r matches Some(v) ==> v == spec_digits_value(s@),
{
    if s.len() == 0 {
        return Option::None;
    }
    let mut acc: u64 = 0;
    let mut i: usize = 0;
    while i < s.len()
        invariant
            0 < s.len(),
            0 <= i <= s.len(),
            forall|j: int| 0 <= j < i ==> 48 <= #[trigger] s@[j] <= 57,
            acc == spec_digits_value(s@.take(i as int)),
        decreases s.len() - i,
    {
        let c = s[i];
        if c < 48 || c > 57 {
            return Option::None;
        }
        let d: u64 = (c - 48) as u64;
        proof {
            let y = (u64::MAX - d) as int;
            vstd::arithmetic::div_mod::lemma_fundamental_div_mod(y, 10);
            vstd::arithmetic::div_mod::lemma_mod_bound(y, 10);
            assert(s@.take(i + 1).drop_last() =~= s@.take(i as int));
            assert(spec_digits_value(s@.take(i + 1)) == acc * 10 + d);
        }
        if acc > (u64::MAX - d) / 10 {
            proof {
                assert(forall|j: int| 0 <= j < s@.len() ==> 48 <= #[trigger] s@[j] ==> true);
                if spec_all_digits(s@) {
                    lemma_digits_value_prefix(s@, i + 1);
                }
            }
            return Option::None;
        }
        acc = acc * 10 + d;
        i = i + 1;
    }
    proof {
        assert(s@.take(s@.len() as int) =~= s@);
    }
    Option::Some(acc)
}

/// The view of an optional header value.
pub open spec fn spec_opt_bytes(o: Option<Vec<u8>>) -> Option<Seq<u8>> {
    match o {
        Option::Some(v) => Option::Some(v@),
        Option::None => Option::None,
    }
}

/// The token a range-capable server advertises in Accept-Ranges.
pub open spec fn spec_bytes_token() -> Seq<u8> {
    seq![98u8, 121u8, 116u8, 101u8, 115u8]
}

/// Whether an Accept-Ranges header advertises byte ranges: its value must be
/// exactly `bytes`; absence or any other value does not.
pub open spec fn spec_range_supported(accept_ranges: Option<Seq<u8>>) -> bool {
    match accept_ranges {
        Option::Some(v) => v == spec_bytes_token(),
        Option::None => false,
    }
}

/// The total length a Content-Length header reports: missing or unparsable
/// counts as 0, the sentinel for "unknown, force single-stream".
pub open spec fn spec_content_length(content_length: Option<Seq<u8>>) -> u64 {
    match content_length {
        Option::Some(v) => if spec_all_digits(v) && spec_digits_value(v) <= u64::MAX {
            spec_digits_value(v) as u64
        } else {
            0
        },
        Option::None => 0,
    }
}

fn is_bytes_token(v: &Vec<u8>) -> (r: bool)
    ensures
        r == (v@ == spec_bytes_token()),
{
    let r = v.len() == 5 && v[0] == 98 && v[1] == 121 && v[2] == 116 && v[3] == 101 && v[4] == 115;
    proof {
        if r {
            assert(v@ =~= spec_bytes_token());
        }
    }
    r
}

/// Decimal ASCII digits of `v`, most significant first, no leading zeros
/// except for the value 0 itself.
pub open spec fn spec_dec_digits(v: nat) -> Seq<u8>
    decreases v,
{
    if v < 10 {
        seq![(48 + v) as u8]
    } else {
        spec_dec_digits(v / 10).push((48 + v % 10) as u8)
    }
}

/// Renders `v` in decimal ASCII.
pub fn u64_to_dec(v: u64) -> (r: Vec<u8>)
    ensures
        r@ == spec_dec_digits(v as nat),
{
    let mut digits: Vec<u8> = Vec::new();
    let d0: u8 = (48 + (v % 10)) as u8;
    digits.push(d0);
    let mut x: u64 = v / 10;
    proof {
        if v >= 10 {
            assert(v as nat / 10 == (v / 10) as nat);
            assert(spec_dec_digits(v as nat) =~= spec_dec_digits((v / 10) as nat) + digits@);
        } else {
            assert(v / 10 == 0) by (nonlinear_arith)
                requires
                    0 <= v < 10;
            assert(v % 10 == v) by (nonlinear_arith)
                requires
                    0 <= v < 10;
            assert(spec_dec_digits(v as nat) =~= digits@);
        }
    }
    while x > 0
        invariant
            x > 0 ==> spec_dec_digits(v as nat) == spec_dec_digits(x as nat) + digits@,
            x == 0 ==> spec_dec_digits(v as nat) == digits@,
        decreases x,
    {
        let ghost pre = digits@;
        let d: u8 = (48 + (x % 10)) as u8;
        digits.insert(0, d);
        proof {
            assert(digits@ =~= seq![d] + pre);
            let xn = x as nat;
            if x >= 10 {
                assert(spec_dec_digits(xn) =~= spec_dec_digits(xn / 10) + seq![d]);
                assert(spec_dec_digits((x / 10) as nat) + digits@ =~= spec_dec_digits(xn) + pre);
            } else {
                assert(x % 10 == x && x / 10 == 0) by (nonlinear_arith)
                    requires
                        0 < x < 10;
                assert(spec_dec_digits(xn) =~= seq![d]);
                assert(spec_dec_digits(v as nat) =~= digits@);
            }
            assert(x / 10 < x) by (nonlinear_arith)
                requires
                    x >= 1;
        }
        x = x / 10;
    }
    digits
}

/// The bytes of a `Range` header value: `bytes=<start>-<end>`, or the
/// open-ended `bytes=<start>-` when `end` is `u64::MAX`.
pub open spec fn spec_range_header(start: u64, end: u64) -> Seq<u8> {
    let head = seq![98u8, 121u8, 116u8, 101u8, 115u8, 61u8] + spec_dec_digits(start as nat)
        + seq![45u8];
    if end == u64::MAX {
        head
    } else {
        head + spec_dec_digits(end as nat)
    }
}

/// Renders the `Range` header value for one page's fetch.
pub fn range_header(start: u64, end: u64) -> (r: Vec<u8>)
    ensures
        r@ == spec_range_header(start, end),
{
    let mut r: Vec<u8> = Vec::new();
    r.push(98);
    r.push(121);
    r.push(116);
    r.push(101);
    r.push(115);
    r.push(61);
    let mut ds = u64_to_dec(start);
    r.append(&mut ds);
    r.push(45);
    if end != u64::MAX {
        let mut de = u64_to_dec(end);
        r.append(&mut de);
    }
    proof {
        assert(r@ =~= spec_range_header(start, end));
    }
    r
}

/// One download invocation: source URL, output directory and file name, the
/// page size its table uses, and its status store.
pub struct DownTask {
    source: String,
    output_dir: String,
    name: String,
    page_size: u64,
    status: Status,
}

impl DownTask {
    /// The task's status store.
    pub closed spec fn spec_status(self) -> Status {
        self.status
    }

    /// The page size a fresh checksum table is given.
    pub closed spec fn spec_page_size(self) -> u64 {
        self.page_size
    }

    /// Whether the two tasks agree on everything but the status store:
    /// source, destination and page size.
    pub closed spec fn same_config(self, other: DownTask) -> bool {
        &&& self.source == other.source
        &&& self.output_dir == other.output_dir
        &&& self.name == other.name
        &&& self.page_size == other.page_size
    }

    /// Well-formedness: a positive page size and a well-formed store.
    pub open spec fn wf(self) -> bool {
        self.spec_page_size() > 0 && self.spec_status().wf()
    }

    /// Builds a task over an already-opened status store.
    pub fn new(source: String, output_dir: String, name: String, page_size: u64, status: Status)
        -> (t: DownTask)
        requires
            page_size > 0,
            status.wf(),
        ensures
            t.wf(),
            t.spec_page_size() == page_size,
            t.spec_status() == status,
    {
        DownTask { source, output_dir, name, page_size, status }
    }

    /// The task's status store, for the caller that persists its image.
    pub fn status(&self) -> (r: &Status)
        ensures
            *r == self.spec_status(),
    {
        &self.status
    }

    /// Reads the probe outcome: given whether the HEAD request succeeded and
    /// the raw Accept-Ranges and Content-Length header values, reports range
    /// support and the total length. A failed request is a `RequestError`;
    /// range support needs the exact header value `bytes`; a missing or
    /// unparsable length is reported as 0 (unknown).
    pub fn check_request_range(
        &self,
        ok: bool,
        accept_ranges: Option<Vec<u8>>,
        content_length: Option<Vec<u8>>,
    ) -> (r: Result<(bool, u64), DownError>)
        ensures
            !ok ==> r == Err::<(bool, u64), DownError>(DownError::RequestError),
            ok ==> (r matches Ok(p) && p.0 == spec_range_supported(spec_opt_bytes(accept_ranges))
                && p.1 == spec_content_length(spec_opt_bytes(content_length))),
    {
        if !ok {
            return Err(DownError::RequestError);
        }
        let range = match &accept_ranges {
            Option::Some(v) => is_bytes_token(v),
            Option::None => false,
        };
        let len: u64 = match &content_length {
            Option::Some(v) => match parse_u64(v) {
                Option::Some(n) => n,
                Option::None => 0,
            },
            Option::None => 0,
        };
        Ok((range, len))
    }

    /// Turns a ranged GET response into the page it carries. A failed
    /// request or non-success status is a `RequestError`; otherwise the body
    /// becomes the payload of page `idx` at byte offset `start`.
    pub fn down_chunk(&self, idx: usize, start: u64, ok: bool, body: Vec<u8>) -> (r: Result<
        Pdata,
        DownError,
    >)
        ensures
            !ok ==> (r matches Err(e) && e == DownError::RequestError),
            ok ==> (r matches Ok(p) && p.index == idx && p.offset == start && p.data@ == body@),
    {
        if !ok {
            return Err(DownError::RequestError);
        }
        Ok(Pdata { index: idx, offset: start, data: body })
    }
}

/// The output-file image after landing `data` at `offset`: the image grows
/// with zero padding if the write lies past its end (a sparse write), the
/// written range holds `data`, and every other byte is untouched.
pub open spec fn spec_write_at(file: Seq<u8>, offset: int, data: Seq<u8>) -> Seq<u8> {
    let n = if file.len() >= offset + data.len() {
        file.len() as int
    } else {
        offset + data.len()
    };
    Seq::new(
        n as nat,
        |i: int|
            if offset <= i < offset + data.len() {
                data[i - offset]
            } else if i < file.len() {
                file[i]
            } else {
                0u8
            },
    )
}

/// The output image after landing a batch of chunks in arrival order.
pub open spec fn spec_apply_files(file: Seq<u8>, chunks: Seq<Pdata>) -> Seq<u8>
    decreases chunks.len(),
{
    if chunks.len() == 0 {
        file
    } else {
        spec_apply_files(
            spec_write_at(file, chunks[0].offset as int, chunks[0].data@),
            chunks.drop_first(),
        )
    }
}

/// The slot table after recording a batch of chunks' checksums in arrival
/// order.
pub open spec fn spec_apply_slots(slots: Seq<u32>, chunks: Seq<Pdata>) -> Seq<u32>
    decreases chunks.len(),
{
    if chunks.len() == 0 {
        slots
    } else {
        spec_apply_slots(
            slots.update(chunks[0].index as int, crc32_of(chunks[0].data@)),
            chunks.drop_first(),
        )
    }
}

proof fn lemma_apply_files_push(file: Seq<u8>, chunks: Seq<Pdata>, c: Pdata)
    ensures
        spec_apply_files(file, chunks.push(c)) == spec_write_at(
            spec_apply_files(file, chunks),
            c.offset as int,
            c.data@,
        ),
    decreases chunks.len(),
{
    reveal_with_fuel(spec_apply_files, 3);
    if chunks.len() == 0 {
        assert(chunks.push(c).drop_first() =~= Seq::<Pdata>::empty());
        assert(chunks.push(c)[0] == c);
    } else {
        assert(chunks.push(c).drop_first() =~= chunks.drop_first().push(c));
        assert(chunks.push(c)[0] == chunks[0]);
        lemma_apply_files_push(
            spec_write_at(file, chunks[0].offset as int, chunks[0].data@),
            chunks.drop_first(),
            c,
        );
    }
}

proof fn lemma_apply_slots_push(slots: Seq<u32>, chunks: Seq<Pdata>, c: Pdata)
    ensures
        spec_apply_slots(slots, chunks.push(c)) == spec_apply_slots(
            slots,
            chunks,
        ).update(c.index as int, crc32_of(c.data@)),
    decreases chunks.len(),
{
    reveal_with_fuel(spec_apply_slots, 3);
    if chunks.len() == 0 {
        assert(chunks.push(c).drop_first() =~= Seq::<Pdata>::empty());
        assert(chunks.push(c)[0] == c);
    } else {
        assert(chunks.push(c).drop_first() =~= chunks.drop_first().push(c));
        assert(chunks.push(c)[0] == chunks[0]);
        lemma_apply_slots_push(
            slots.update(chunks[0].index as int, crc32_of(chunks[0].data@)),
            chunks.drop_first(),
            c,
        );
    }
}

/// Lands one fetched page: writes its payload at its offset in the output
/// image (zero-padding any gap, as a sparse file write does), computes the
/// payload's CRC-32 and records it in the status store. The write itself
/// always happens; recording is rejected exactly as `Status::update` says.
pub fn write_page(file: &mut Vec<u8>, status: &mut Status, chunk: &Pdata) -> (r: Result<
    (),
    StatusError,
>)
    requires
        old(status).wf(),
        chunk.offset + chunk.data@.len() <= usize::MAX,
    ensures
        final(status).wf(),
        final(file)@ == spec_write_at(old(file)@, chunk.offset as int, chunk.data@),
        old(status)@.page_size != 0 && chunk.index < old(status)@.slots.len() ==> {
            &&& r is Ok
            &&& final(status)@.page_size == old(status)@.page_size
            &&& final(status)@.slots == old(status)@.slots.update(
                chunk.index as int,
                crc32_of(chunk.data@),
            )
        },
        old(status)@.page_size == 0 ==> r == Err::<(), StatusError>(StatusError::Uninitialized)
            && final(status)@ == old(status)@,
        old(status)@.page_size != 0 && chunk.index >= old(status)@.slots.len() ==> r == Err::<
            (),
            StatusError,
        >(StatusError::OutOfRange) && final(status)@ == old(status)@,
{
    let off: usize = chunk.offset as usize;
    let end: usize = off + chunk.data.len();
    while file.len() < end
        invariant
            end <= usize::MAX,
            old(file)@.len() <= file@.len(),
            file@.len() <= end || file@.len() == old(file)@.len(),
            forall|j: int| 0 <= j < old(file)@.len() ==> file@[j] == old(file)@[j],
            forall|j: int| old(file)@.len() <= j < file@.len() ==> file@[j] == 0,
        decreases end - file@.len(),
    {
        file.push(0);
    }
    let mut i: usize = 0;
    while i < chunk.data.len()
        invariant
            0 <= i <= chunk.data@.len(),
            off == chunk.offset,
            end == off + chunk.data@.len(),
            end <= file@.len(),
            file@.len() == if old(file)@.len() >= end {
                old(file)@.len() as int
            } else {
                end as int
            },
            forall|j: int| 0 <= j < i ==> file@[off + j] == chunk.data@[j],
            forall|j: int|
                0 <= j < old(file)@.len() && !(off <= j < off + i) ==> file@[j] == old(file)@[j],
            forall|j: int|
                old(file)@.len() <= j < file@.len() && !(off <= j < off + i) ==> file@[j] == 0,
        decreases chunk.data@.len() - i,
    {
        file.set(off + i, chunk.data[i]);
        i = i + 1;
    }
    proof {
        assert(file@ =~= spec_write_at(old(file)@, chunk.offset as int, chunk.data@));
    }
    let cs = crate::checksum::crc32(chunk.data.as_slice());
    status.update(chunk.index, cs)
}

/// The writer: lands a batch of fetched pages in arrival order, recording
/// each page's checksum after its bytes are in place. Every page must lie
/// inside the initialized table.
pub fn write_to_file(file: &mut Vec<u8>, status: &mut Status, chunks: &Vec<Pdata>) -> (r: Result<
    (),
    StatusError,
>)
    requires
        old(status).wf(),
        old(status)@.page_size != 0,
        forall|k: int|
            0 <= k < chunks@.len() ==> (#[trigger] chunks@[k]).index < old(status)@.slots.len()
                && chunks@[k].offset + chunks@[k].data@.len() <= usize::MAX,
    ensures
        r is Ok,
        final(status).wf(),
        final(status)@.page_size == old(status)@.page_size,
        final(file)@ == spec_apply_files(old(file)@, chunks@),
        final(status)@.slots == spec_apply_slots(old(status)@.slots, chunks@),
{
    let mut i: usize = 0;
    while i < chunks.len()
        invariant
            0 <= i <= chunks@.len(),
            status.wf(),
            status@.page_size == old(status)@.page_size,
            old(status)@.page_size != 0,
            status@.slots.len() == old(status)@.slots.len(),
            file@ == spec_apply_files(old(file)@, chunks@.take(i as int)),
            status@.slots == spec_apply_slots(old(status)@.slots, chunks@.take(i as int)),
            forall|k: int|
                0 <= k < chunks@.len() ==> (#[trigger] chunks@[k]).index < old(
                    status,
                )@.slots.len() && chunks@[k].offset + chunks@[k].data@.len() <= usize::MAX,
        decreases chunks@.len() - i,
    {
        let c: &Pdata = &chunks[i];
        let _ = write_page(file, status, c);
        proof {
            assert(chunks@.take(i + 1) =~= chunks@.take(i as int).push(chunks@[i as int]));
            lemma_apply_files_push(old(file)@, chunks@.take(i as int), chunks@[i as int]);
            lemma_apply_slots_push(old(status)@.slots, chunks@.take(i as int), chunks@[i as int]);
        }
        i = i + 1;
    }
    proof {
        assert(chunks@.take(chunks@.len() as int) =~= chunks@);
    }
    Ok(())
}

/// The byte range of page `i` inside an on-disk image.
pub open spec fn spec_page_slice(file: Seq<u8>, page_size: int, i: int) -> Seq<u8> {
    file.subrange(spec_page_start(i, page_size), spec_page_end(i, page_size, file.len() as int))
}

/// What the resume verifier leaves in slot `i`: a recorded checksum survives
/// only if its page lies within the on-disk image and the page's bytes still
/// hash to it; every other recorded checksum is invalidated to 0, and an
/// empty slot stays empty.
pub open spec fn spec_verified_slot(slots: Seq<u32>, page_size: int, file: Seq<u8>, i: int) -> u32 {
    if slots[i] != 0 && i < spec_page_count(file.len() as int, page_size) && crc32_of(
        spec_page_slice(file, page_size, i),
    ) == slots[i] {
        slots[i]
    } else {
        0
    }
}

/// The whole table after verification.
pub open spec fn spec_verify(slots: Seq<u32>, page_size: int, file: Seq<u8>) -> Seq<u32> {
    Seq::new(slots.len(), |i: int| spec_verified_slot(slots, page_size, file, i))
}

/// Whether verification salvaged nothing: no slot survived.
pub open spec fn spec_all_invalid(slots: Seq<u32>, page_size: int, file: Seq<u8>) -> bool {
    forall|i: int|
        0 <= i < slots.len() ==> spec_verified_slot(slots, page_size, file, i) == 0
}

impl DownTask {
    /// The resume verifier: `crc32` is the stored table, `file_bytes` the
    /// current on-disk output. Every recorded (non-zero) checksum whose page
    /// is missing from the image or no longer hashes to it is invalidated in
    /// the status store; slots of pages that still match are kept. Returns
    /// whether every recorded checksum turned out invalid — "nothing
    /// salvageable, restart" — as opposed to at least one page surviving.
    pub fn check_compile_file(&mut self, page_size: u64, crc32: &Vec<u32>, file_bytes: &Vec<u8>)
        -> (all_error: bool)
        requires
            old(self).wf(),
            page_size != 0,
            old(self).spec_status()@.page_size == page_size,
            crc32@ == old(self).spec_status()@.slots,
        ensures
            final(self).wf(),
            old(self).same_config(*final(self)),
            final(self).spec_status()@.page_size == page_size,
            final(self).spec_status()@.slots =~= spec_verify(
                crc32@,
                page_size as int,
                file_bytes@,
            ),
            all_error == spec_all_invalid(crc32@, page_size as int, file_bytes@),
    {
        let fsize: usize = file_bytes.len();
        let np: u64 = get_page_count(fsize as u64, page_size);
        let n: usize = crc32.len();
        let mut all_error = true;
        let ghost fb = file_bytes@;
        let ghost ps = page_size as int;
        let mut i: usize = 0;
        while i < n
            invariant
                0 <= i <= n,
                self.wf(),
                old(self).same_config(*self),
                page_size != 0,
                self.spec_status()@.page_size == page_size,
                n == crc32@.len(),
                crc32@ == old(self).spec_status()@.slots,
                fb == file_bytes@,
                ps == page_size as int,
                fsize == fb.len(),
                np == spec_page_count(fb.len() as int, ps),
                self.spec_status()@.slots.len() == n,
                forall|j: int|
                    0 <= j < i ==> self.spec_status()@.slots[j] == spec_verified_slot(
                        crc32@,
                        ps,
                        fb,
                        j,
                    ),
                forall|j: int| i <= j < n ==> self.spec_status()@.slots[j] == crc32@[j],
                all_error == (forall|j: int|
                    0 <= j < i ==> spec_verified_slot(crc32@, ps, fb, j) == 0),
            decreases n - i,
        {
            let c = crc32[i];
            if c != 0 {
                if (i as u64) < np {
                    proof {
                        lemma_pages_partition(fb.len() as int, ps);
                        assert(spec_page_start(i as int, ps) < spec_page_end(
                            i as int,
                            ps,
                            fb.len() as int,
                        ));
                        assert(i * ps < fb.len());
                    }
                    let start: u64 = (i as u64) * page_size;
                    let plen: u64 = if (i as u64) == np - 1 {
                        last_page_len(fsize as u64, page_size)
                    } else {
                        page_size
                    };
                    proof {
                        if (i as u64) == np - 1 {
                            assert(ps * (np - 1) == i as int * ps) by (nonlinear_arith)
                                requires
                                    i as int == np - 1;
                        } else {
                            assert(spec_page_end(i as int, ps, fb.len() as int)
                                == spec_page_start(i as int + 1, ps));
                            assert((i as int + 1) * ps == i as int * ps + ps) by (nonlinear_arith);
                        }
                        assert(start + plen == spec_page_end(i as int, ps, fb.len() as int));
                    }
                    let lo: usize = start as usize;
                    let hi: usize = (start + plen) as usize;
                    let page = slice_subrange(file_bytes.as_slice(), lo, hi);
                    let cs = crate::checksum::crc32(page);
                    if cs != c {
                        let _ = self.status.update(i, 0);
                    } else {
                        all_error = false;
                    }
                } else {
                    let _ = self.status.update(i, 0);
                }
            }
            proof {
                assert(self.spec_status()@.slots[i as int] == spec_verified_slot(
                    crc32@,
                    ps,
                    fb,
                    i as int,
                ));
            }
            i = i + 1;
        }
        all_error
    }
}

/// Whether `jobs` is the complete fetch list of a fresh paged download:
/// one job per page, index-ordered, each covering its page's inclusive byte
/// range, the final job open-ended.
pub open spec fn spec_full_jobs(jobs: Seq<PageJob>, page_size: u64, total_len: u64) -> bool {
    &&& jobs.len() == spec_page_count(total_len as int, page_size as int)
    &&& forall|k: int|
        0 <= k < jobs.len() ==> {
            &&& (#[trigger] jobs[k]).index == k
            &&& jobs[k].start == k * page_size
            &&& jobs[k].end == if k == jobs.len() - 1 {
                u64::MAX as int
            } else {
                (k + 1) * page_size - 1
            }
        }
}

/// Whether a status view is a freshly initialized table for pages of
/// `page_size` bytes over `total_len` bytes: every slot zero.
pub open spec fn spec_fresh_table(v: crate::status::StatusView, page_size: u64, total_len: u64) -> bool {
    &&& v.page_size == page_size
    &&& v.slots == Seq::new(
        spec_page_count(total_len as int, page_size as int) as nat,
        |i: int| 0u32,
    )
}

impl DownTask {
    /// Prepares a fresh paged download of a resource of `total_len` bytes:
    /// re-initializes the status table with the task's page size (discarding
    /// any prior checksums) and returns the full fetch list.
    pub fn muti_download(&mut self, total_len: u64) -> (jobs: Vec<PageJob>)
        requires
            old(self).wf(),
            total_len > 0,
            16 + 4 * spec_page_count(total_len as int, old(self).spec_page_size() as int)
                <= usize::MAX,
        ensures
            final(self).wf(),
            old(self).same_config(*final(self)),
            spec_fresh_table(
                final(self).spec_status()@,
                old(self).spec_page_size(),
                total_len,
            ),
            spec_full_jobs(jobs@, old(self).spec_page_size(), total_len),
    {
        let ghost ps = self.page_size as int;
        let count: u64 = get_page_count(total_len, self.page_size);
        proof {
            lemma_pages_partition(total_len as int, ps);
        }
        let _ = self.status.set_page(self.page_size, total_len);
        let n: usize = count as usize;
        let mut jobs: Vec<PageJob> = Vec::new();
        let mut i: usize = 0;
        while i < n
            invariant
                0 <= i <= n,
                n == count,
                self.wf(),
                self.spec_page_size() > 0,
                ps == self.spec_page_size() as int,
                count == spec_page_count(total_len as int, ps),
                count >= 1,
                total_len > 0,
                forall|k: int|
                    0 <= k < count ==> spec_page_start(k, ps) < spec_page_end(
                        k,
                        ps,
                        total_len as int,
                    ),
                forall|k: int|
                    0 <= k < count - 1 ==> spec_page_end(k, ps, total_len as int)
                        == spec_page_start(k + 1, ps),
                jobs@.len() == i,
                forall|k: int|
                    0 <= k < i ==> {
                        &&& (#[trigger] jobs@[k]).index == k
                        &&& jobs@[k].start == k * ps
                        &&& jobs@[k].end == if k == count - 1 {
                            u64::MAX as int
                        } else {
                            (k + 1) * ps - 1
                        }
                    },
            decreases n - i,
        {
            proof {
                assert(spec_page_start(i as int, ps) < spec_page_end(i as int, ps, total_len as int));
            }
            let start: u64 = (i as u64) * self.page_size;
            let end: u64 = if i == n - 1 {
                u64::MAX
            } else {
                proof {
                    assert(spec_page_end(i as int, ps, total_len as int) == spec_page_start(
                        i as int + 1,
                        ps,
                    ));
                    assert((i as int + 1) * ps == i as int * ps + ps) by (nonlinear_arith);
                }
                (i as u64 + 1) * self.page_size - 1
            };
            jobs.push(PageJob { index: i, start, end });
            i = i + 1;
        }
        jobs
    }
}

/// What `start` decided, named after the orchestrator states it enters: a
/// fresh paged download over the full fetch list, one sequential stream, a
/// resumption over only the missing pages, or nothing left to do. A fatal
/// error while carrying the plan out is the failed state; the status store
/// then keeps whatever was durably recorded.
pub enum Plan {
    PagedActive { jobs: Vec<PageJob> },
    SingleStreamActive,
    Resuming { jobs: Vec<PageJob> },
    Done,
}

/// A fresh decision pages the download only when the server honors ranges
/// and the resource is longer than the threshold; a length of 0 (unknown)
/// therefore always forces the single stream.
pub open spec fn spec_fresh_paged(range: bool, total_len: u64) -> bool {
    range && total_len > PAGED_THRESHOLD
}

/// The stored table stretched or cut to the page count expected for the
/// current total length: stored checksums survive where slots remain, pages
/// beyond the stored table count as missing, pages past the current total
/// are dropped.
pub open spec fn spec_adjust(slots: Seq<u32>, expected: int) -> Seq<u32> {
    Seq::new(
        expected as nat,
        |i: int|
            if i < slots.len() {
                slots[i]
            } else {
                0u32
            },
    )
}

/// Whether `jobs` lists exactly the pages whose slot is 0, in increasing
/// index order, each with its page's byte range, the final page open-ended.
pub open spec fn spec_missing_jobs(jobs: Seq<PageJob>, slots: Seq<u32>, page_size: u64) -> bool {
    &&& forall|k: int|
        0 <= k < jobs.len() ==> {
            &&& (#[trigger] jobs[k]).index < slots.len()
            &&& slots[jobs[k].index as int] == 0
            &&& jobs[k].start == jobs[k].index * page_size
            &&& jobs[k].end == if jobs[k].index == slots.len() - 1 {
                u64::MAX as int
            } else {
                (jobs[k].index + 1) * page_size - 1
            }
        }
    &&& forall|i: int|
        0 <= i < slots.len() && (#[trigger] slots[i]) == 0 ==> exists|k: int|
            0 <= k < jobs.len() && (#[trigger] jobs[k]).index == i
    &&& forall|k: int| 0 < k < jobs.len() ==> (#[trigger] jobs[k]).index > jobs[k - 1].index
}

impl DownTask {
    /// The orchestration decision, made once per invocation from the probe's
    /// outcome (`range`, `total_len`) and the current on-disk output image
    /// (`file_bytes`, empty when the file does not exist yet).
    ///
    /// A task without usable prior state downloads fresh: paged when ranges
    /// are honored and the resource is long enough, else as a single stream
    /// that bypasses the status table (single-stream downloads are not
    /// resumable by design, and leave an uninitialized store untouched). A
    /// task with prior state re-fits the stored table to the probed length,
    /// runs the resume verifier against the on-disk image, and then either
    /// finishes outright (everything verified), resumes over exactly the
    /// missing pages (ranges still honored), restarts fresh (nothing
    /// salvageable), or falls back to a single stream (range support lost).
    pub fn start(&mut self, range: bool, total_len: u64, file_bytes: &Vec<u8>) -> (r: Plan)
        requires
            old(self).wf(),
            16 + 4 * spec_page_count(total_len as int, old(self).spec_page_size() as int)
                <= usize::MAX,
            old(self).spec_status()@.page_size != 0 ==> 16 + 4 * spec_page_count(
                total_len as int,
                old(self).spec_status()@.page_size as int,
            ) <= usize::MAX,
        ensures
            final(self).wf(),
            old(self).same_config(*final(self)),
            !range ==> (r is SingleStreamActive || r is Done),
            old(self).spec_status()@.page_size == 0 && !spec_fresh_paged(range, total_len) ==> (r
                is SingleStreamActive && *final(self) == *old(self)),
            old(self).spec_status()@.page_size == 0 && spec_fresh_paged(range, total_len) ==> (r
                matches Plan::PagedActive { jobs } && spec_full_jobs(
                jobs@,
                old(self).spec_page_size(),
                total_len,
            ) && spec_fresh_table(
                final(self).spec_status()@,
                old(self).spec_page_size(),
                total_len,
            )),
            old(self).spec_status()@.page_size != 0 ==> ({
                let ops = old(self).spec_status()@.page_size;
                let expected = spec_page_count(total_len as int, ops as int);
                let adjusted = spec_adjust(old(self).spec_status()@.slots, expected);
                let vs = spec_verify(adjusted, ops as int, file_bytes@);
                &&& (expected == 0 ==> r is SingleStreamActive && *final(self) == *old(self))
                &&& (expected > 0 && spec_all_invalid(adjusted, ops as int, file_bytes@) ==> {
                    &&& (spec_fresh_paged(range, total_len) ==> (r matches Plan::PagedActive {
                        jobs,
                    } && spec_full_jobs(jobs@, old(self).spec_page_size(), total_len)
                        && spec_fresh_table(
                        final(self).spec_status()@,
                        old(self).spec_page_size(),
                        total_len,
                    )))
                    &&& (!spec_fresh_paged(range, total_len) ==> (r is SingleStreamActive
                        && final(self).spec_status()@.page_size == ops && final(self).spec_status()@.slots == vs))
                })
                &&& (expected > 0 && !spec_all_invalid(adjusted, ops as int, file_bytes@) ==> {
                    &&& final(self).spec_status()@.page_size == ops
                    &&& final(self).spec_status()@.slots == vs
                    &&& ((forall|i: int| 0 <= i < vs.len() ==> (#[trigger] vs[i]) != 0) ==> r
                        is Done)
                    &&& ((exists|i: int| 0 <= i < vs.len() && (#[trigger] vs[i]) == 0) ==> {
                        &&& (range ==> (r matches Plan::Resuming { jobs } && spec_missing_jobs(
                            jobs@,
                            vs,
                            ops,
                        )))
                        &&& (!range ==> r is SingleStreamActive)
                    })
                })
            }),
    {
        let ghost ops = old(self).spec_status()@.page_size;
        let ghost o_slots = old(self).spec_status()@.slots;
        let ghost expected_s = spec_page_count(total_len as int, ops as int);
        let ghost adjusted = spec_adjust(o_slots, expected_s);
        let ghost vs = spec_verify(adjusted, ops as int, file_bytes@);
        let stored_ps: u64 = self.status.get_size();
        if stored_ps == 0 {
            if range && total_len > PAGED_THRESHOLD {
                let jobs = self.muti_download(total_len);
                Plan::PagedActive { jobs }
            } else {
                Plan::SingleStreamActive
            }
        } else {
            let expected: usize = self.status.get_page_len(total_len);
            if expected == 0 {
                return Plan::SingleStreamActive;
            }
            proof {
                if total_len == 0 {
                    assert(0int % ops as int == 0 && 0int / ops as int == 0) by (nonlinear_arith)
                        requires
                            ops as int > 0;
                }
                assert(total_len > 0);
            }
            let stored = self.status.find_crc32();
            if stored.len() != expected {
                let _ = self.status.set_page(stored_ps, total_len);
                let m: usize = if stored.len() < expected {
                    stored.len()
                } else {
                    expected
                };
                let mut i: usize = 0;
                while i < m
                    invariant
                        0 <= i <= m,
                        m <= expected,
                        m <= stored@.len(),
                        expected == expected_s,
                        stored@ == o_slots,
                        self.wf(),
                        self.spec_status()@.page_size == stored_ps,
                        stored_ps == ops,
                        stored_ps != 0,
                        self.spec_status()@.slots.len() == expected,
                        forall|j: int| 0 <= j < i ==> self.spec_status()@.slots[j] == o_slots[j],
                        forall|j: int|
                            i <= j < expected ==> self.spec_status()@.slots[j] == 0u32,
                        old(self).same_config(*self),
                    decreases m - i,
                {
                    let _ = self.status.update(i, stored[i]);
                    i = i + 1;
                }
            }
            proof {
                assert(self.spec_status()@.slots =~= adjusted);
            }
            let crc_now = self.status.find_crc32();
            let all_error = self.check_compile_file(stored_ps, &crc_now, file_bytes);
            if all_error {
                if range && total_len > PAGED_THRESHOLD {
                    let jobs = self.muti_download(total_len);
                    Plan::PagedActive { jobs }
                } else {
                    Plan::SingleStreamActive
                }
            } else {
                let cur = self.status.find_crc32();
                proof {
                    assert(cur@ == vs);
                    lemma_pages_partition(total_len as int, ops as int);
                }
                let n: usize = cur.len();
                let mut jobs: Vec<PageJob> = Vec::new();
                let mut i: usize = 0;
                while i < n
                    invariant
                        0 <= i <= n,
                        n == vs.len(),
                        n == expected_s,
                        cur@ == vs,
                        total_len > 0,
                        stored_ps == ops,
                        ops != 0,
                        forall|k: int|
                            0 <= k < expected_s ==> spec_page_start(k, ops as int)
                                < spec_page_end(k, ops as int, total_len as int),
                        forall|k: int|
                            0 <= k < expected_s - 1 ==> spec_page_end(
                                k,
                                ops as int,
                                total_len as int,
                            ) == spec_page_start(k + 1, ops as int),
                        forall|k: int|
                            0 <= k < jobs@.len() ==> {
                                &&& (#[trigger] jobs@[k]).index < vs.len()
                                &&& (#[trigger] jobs@[k]).index < i
                                &&& vs[jobs@[k].index as int] == 0
                                &&& jobs@[k].start == jobs@[k].index * ops
                                &&& jobs@[k].end == if jobs@[k].index == vs.len() - 1 {
                                    u64::MAX as int
                                } else {
                                    (jobs@[k].index + 1) * ops - 1
                                }
                            },
                        forall|j: int|
                            0 <= j < i && (#[trigger] vs[j]) == 0 ==> exists|k: int|
                                0 <= k < jobs@.len() && (#[trigger] jobs@[k]).index == j,
                        forall|k: int|
                            0 < k < jobs@.len() ==> (#[trigger] jobs@[k]).index > jobs@[k
                                - 1].index,
                    decreases n - i,
                {
                    if cur[i] == 0 {
                        proof {
                            assert(spec_page_start(i as int, ops as int) < spec_page_end(
                                i as int,
                                ops as int,
                                total_len as int,
                            ));
                        }
                        let start: u64 = (i as u64) * stored_ps;
                        let end: u64 = if i == n - 1 {
                            u64::MAX
                        } else {
                            proof {
                                assert(spec_page_end(i as int, ops as int, total_len as int)
                                    == spec_page_start(i as int + 1, ops as int));
                                assert((i as int + 1) * ops as int == i as int * ops as int
                                    + ops as int) by (nonlinear_arith);
                            }
                            (i as u64 + 1) * stored_ps - 1
                        };
                        let ghost pre_jobs = jobs@;
                        jobs.push(PageJob { index: i, start, end });
                        proof {
                            assert forall|j: int|
                                0 <= j < i + 1 && (#[trigger] vs[j]) == 0 implies exists|k: int|
                                0 <= k < jobs@.len() && (#[trigger] jobs@[k]).index == j by {
                                if j == i as int {
                                    assert(jobs@[jobs@.len() - 1].index == j);
                                } else {
                                    let k0 = choose|k: int|
                                        0 <= k < pre_jobs.len() && (#[trigger] pre_jobs[k]).index
                                            == j;
                                    assert(jobs@[k0].index == j);
                                }
                            }
                        }
                    }
                    i = i + 1;
                }
                if jobs.len() == 0 {
                    proof {
                        assert forall|j: int| 0 <= j < vs.len() implies (#[trigger] vs[j])
                            != 0 by {
                            if vs[j] == 0 {
                                let k0 = choose|k: int|
                                    0 <= k < jobs@.len() && (#[trigger] jobs@[k]).index == j;
                                assert(false);
                            }
                        }
                    }
                    Plan::Done
                } else if range {
                    proof {
                        assert(vs[jobs@[0].index as int] == 0);
                    }
                    Plan::Resuming { jobs }
                } else {
                    proof {
                        assert(vs[jobs@[0].index as int] == 0);
                    }
                    Plan::SingleStreamActive
                }
            }
        }
    }
}

} // verus!
