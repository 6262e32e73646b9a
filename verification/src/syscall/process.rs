//! Process-management system calls: the checks and computations around the
//! kernel's memory and task services.
//!
//! User addresses are Sv39 virtual addresses: 39 bits wide, in pages of
//! 4096 bytes. Addresses and lengths are taken as `u64`, the width of a
//! register of the 64-bit machine the kernel runs on.
use vstd::prelude::*;

verus! {

/// Width in bits of an Sv39 virtual address.
pub const VA_WIDTH_SV39: u64 = 39;

/// Size in bytes of a page.
pub const PAGE_SIZE: u64 = 0x1000;

/// One past the highest user virtual address.
pub open spec fn va_limit() -> int {
    0x80_0000_0000int
}

/// A time of day split into seconds and microseconds.
#[derive(Debug, Clone, Copy, PartialEq, Eq, Structural)]
pub struct TimeVal {
    pub sec: usize,
    pub usec: usize,
}

impl TimeVal {
    /// Splits a count of microseconds into seconds and the microseconds left
    /// over.
    pub fn from_us(us: usize) -> (tv: TimeVal)
        ensures
            tv.sec == us / 1_000_000,
            tv.usec == us % 1_000_000,
            tv.usec < 1_000_000,
            tv.sec * 1_000_000 + tv.usec == us,
    {
        TimeVal { sec: us / 1_000_000, usec: us % 1_000_000 }
    }
}

/// Whether `addr` lies below the top of the Sv39 address space.
pub fn is_user_va(addr: u64) -> (ok: bool)
    ensures
        ok == (addr < va_limit()),
{
    assert((1u64 << 39u64) == 0x80_0000_0000u64) by (bit_vector);
    addr < (1u64 << VA_WIDTH_SV39)
}

/// The total length of the chunks before chunk `c`.
pub open spec fn chunks_before(lens: Seq<usize>, c: int) -> int
    decreases c,
{
    if c <= 0 {
        0
    } else {
        chunks_before(lens, c - 1) + lens[c - 1]
    }
}

/// The bytes that go to chunk `c` when `src_len` bytes are spread over
/// chunks of lengths `lens`, in order: where they start in the source, and
/// how many.
pub open spec fn chunk_share(lens: Seq<usize>, src_len: int, c: int) -> (int, int) {
    let start = if chunks_before(lens, c) < src_len {
        chunks_before(lens, c)
    } else {
        src_len
    };
    let count = if lens[c] < src_len - start {
        lens[c] as int
    } else {
        src_len - start
    };
    (start, count)
}

proof fn lemma_chunks_before_monotone(lens: Seq<usize>, a: int, b: int)
    requires
        0 <= a <= b,
    ensures
        chunks_before(lens, a) <= chunks_before(lens, b),
    decreases b - a,
{
    if a < b {
        lemma_chunks_before_monotone(lens, a, b - 1);
    }
}

/// Plans copying `src_len` bytes into a buffer made of chunks of lengths
/// `lens`, filling each chunk from its start and moving on to the next until
/// the source is used up: for each chunk, the source offset and byte count
/// it receives.
pub fn plan_chunk_copy(lens: &[usize], src_len: usize) -> (plan: Vec<(usize, usize)>)
    ensures
        plan@.len() == lens@.len(),
        forall|c: int|
            0 <= c < lens@.len() ==> (#[trigger] plan@[c]).0 == chunk_share(lens@, src_len as int, c).0
                && plan@[c].1 == chunk_share(lens@, src_len as int, c).1,
{
    let mut plan: Vec<(usize, usize)> = Vec::new();
    let mut written: usize = 0;
    let mut c: usize = 0;
    while c < lens.len()
        invariant
            c <= lens@.len(),
            plan@.len() == c,
            written <= src_len,
            written == if chunks_before(lens@, c as int) < src_len {
                chunks_before(lens@, c as int)
            } else {
                src_len as int
            },
            forall|k: int|
                0 <= k < c ==> (#[trigger] plan@[k]).0 == chunk_share(lens@, src_len as int, k).0
                    && plan@[k].1 == chunk_share(lens@, src_len as int, k).1,
        decreases lens@.len() - c,
    {
        let rest = src_len - written;
        let n = if lens[c] < rest { lens[c] } else { rest };
        proof {
            lemma_chunks_before_monotone(lens@, 0, c as int);
        }
        plan.push((written, n));
        written = written + n;
        c = c + 1;
    }
    plan
}

/// The outcome of the program-break change, as the system call answers it:
/// the old break, or -1 when the change was refused.
pub fn sys_sbrk(old_brk: Option<usize>) -> (r: isize)
    ensures
        r == match old_brk {
            Some(b) => b as isize,
            None => -1isize,
        },
{
    match old_brk {
        Some(b) => b as isize,
        None => -1,
    }
}

/// What the tracing call does after looking at its arguments.
#[derive(PartialEq, Eq, Structural, Debug, Clone, Copy)]
pub enum TraceStep {
    /// Answer how many times the calling task made system call `id`.
    CallCount,
    /// Answer -1.
    Refuse,
    /// Look up the page of user address `id`, then decide with
    /// `trace_access`.
    LookUp,
}

/// Request 2 asks for a system-call count; the others name a user address,
/// which must lie in the Sv39 space.
pub fn trace_request(request: usize, id: usize) -> (step: TraceStep)
    ensures
        step == if request == 2 {
            TraceStep::CallCount
        } else if id >= va_limit() {
            TraceStep::Refuse
        } else {
            TraceStep::LookUp
        },
{
    if request == 2 {
        return TraceStep::CallCount;
    }
    if !is_user_va(id as u64) {
        return TraceStep::Refuse;
    }
    TraceStep::LookUp
}

/// The access rights of a mapped page.
#[derive(PartialEq, Eq, Structural, Debug, Clone, Copy)]
pub struct PagePerms {
    pub readable: bool,
    pub writable: bool,
}

/// The memory access that a tracing call makes.
#[derive(PartialEq, Eq, Structural, Debug, Clone, Copy)]
pub enum TraceAccess {
    /// Answer -1.
    Refuse,
    /// Answer the byte at the address.
    Read,
    /// Store this byte at the address and answer 0.
    Write(u8),
}

/// Request 0 reads a byte of a readable page, request 1 writes the low byte
/// of `data` into a writable page; anything else, or an unmapped page, is
/// refused.
pub fn trace_access(request: usize, page: Option<PagePerms>, data: usize) -> (access: TraceAccess)
    ensures
        access == match page {
            None => TraceAccess::Refuse,
            Some(p) => if request == 0 && p.readable {
                TraceAccess::Read
            } else if request == 1 && p.writable {
                TraceAccess::Write(data as u8)
            } else {
                TraceAccess::Refuse
            },
        },
{
    let p = match page {
        Some(p) => p,
        None => return TraceAccess::Refuse,
    };
    match request {
        0 => {
            if !p.readable {
                return TraceAccess::Refuse;
            }
            TraceAccess::Read
        },
        1 => {
            if !p.writable {
                return TraceAccess::Refuse;
            }
            TraceAccess::Write(data as u8)
        },
        _ => TraceAccess::Refuse,
    }
}

/// The virtual address that `x` denotes: its low 39 bits.
pub open spec fn va_of(x: u64) -> int {
    (x as int) % va_limit()
}

/// The number of the first page that starts at or after address `va`.
pub open spec fn ceil_page(va: int) -> int {
    if va == 0 {
        0
    } else {
        (va - 1 + 4096) / 4096
    }
}

/// A user address range and the page numbers it spans, from the page
/// holding `start` up to, not including, the first page at or after `end`.
#[derive(PartialEq, Eq, Structural, Debug, Clone, Copy)]
pub struct PageRange {
    pub start: u64,
    pub end: u64,
    pub start_vpn: u64,
    pub end_vpn: u64,
}

pub open spec fn page_range_of(start: u64, end: u64) -> PageRange {
    PageRange {
        start,
        end,
        start_vpn: (va_of(start) / 4096) as u64,
        end_vpn: ceil_page(va_of(end)) as u64,
    }
}

/// What a map or unmap call does after checking its arguments.
#[derive(PartialEq, Eq, Structural, Debug, Clone, Copy)]
pub enum MapCheck {
    /// Answer this code.
    Return(isize),
    /// Go on with the pages of this range.
    Region(PageRange),
}

fn virt_addr(x: u64) -> (va: u64)
    ensures
        va == va_of(x),
{
    assert((1u64 << 39u64) == 0x80_0000_0000u64) by (bit_vector);
    let mask: u64 = (1u64 << VA_WIDTH_SV39) - 1;
    assert(x & 0x7f_ffff_ffffu64 == x % 0x80_0000_0000u64) by (bit_vector);
    x & mask
}

fn page_range(start: u64, end: u64) -> (r: PageRange)
    ensures
        r == page_range_of(start, end),
{
    let s = virt_addr(start);
    let e = virt_addr(end);
    let end_vpn = if e == 0 { 0 } else { (e - 1 + PAGE_SIZE) / PAGE_SIZE };
    PageRange { start, end, start_vpn: s / PAGE_SIZE, end_vpn }
}

/// How a map request with these arguments is answered, or which pages it
/// covers: the protection `port` must set some of its three low bits and no
/// other, `start` must be a page-aligned user address, an empty request
/// succeeds at once, and the range must not wrap.
pub open spec fn mmap_outcome(start: u64, len: u64, port: usize) -> MapCheck {
    if port >= 8 || port % 8 == 0 {
        MapCheck::Return(-1isize)
    } else if start % 4096 != 0 || start >= va_limit() {
        MapCheck::Return(-1isize)
    } else if len == 0 {
        MapCheck::Return(0isize)
    } else if start + len > u64::MAX {
        MapCheck::Return(-1isize)
    } else {
        MapCheck::Region(page_range_of(start, (start + len) as u64))
    }
}

/// How an unmap request with these arguments is answered, or which pages it
/// covers.
pub open spec fn munmap_outcome(start: u64, len: u64) -> MapCheck {
    if start >= va_limit() || start % 4096 != 0 {
        MapCheck::Return(-1isize)
    } else if len == 0 {
        MapCheck::Return(0isize)
    } else if start + len > u64::MAX {
        MapCheck::Return(-1isize)
    } else {
        MapCheck::Region(page_range_of(start, (start + len) as u64))
    }
}

/// Checks the arguments of a map request.
pub fn mmap_check(start: u64, len: u64, port: usize) -> (r: MapCheck)
    ensures
        r == mmap_outcome(start, len, port),
{
    proof {
        assert(((port >> 3usize) > 0 || (port & 7) == 0) == (port >= 8 || port % 8 == 0))
            by (bit_vector);
        assert(((port & !0x7usize) != 0) == (port >= 8)) by (bit_vector);
        assert(((port & 0x7usize) == 0) == (port % 8 == 0)) by (bit_vector);
    }
    if ((port >> 3) > 0) || ((port & 7) == 0) {
        return MapCheck::Return(-1);
    }
    if start % PAGE_SIZE != 0 {
        return MapCheck::Return(-1);
    }
    if !is_user_va(start) {
        return MapCheck::Return(-1);
    }
    if (port & !0x7) != 0 {
        return MapCheck::Return(-1);
    }
    if (port & 0x7) == 0 {
        return MapCheck::Return(-1);
    }
    if len == 0 {
        return MapCheck::Return(0);
    }
    match start.checked_add(len) {
        Some(end) => MapCheck::Region(page_range(start, end)),
        None => MapCheck::Return(-1),
    }
}

/// The page-table permission bits that a valid protection `port` grants:
/// user access plus read, write and execute as its three low bits say.
pub fn map_permission_bits(port: usize) -> (bits: u8)
    ensures
        bits == 16 + 2 * (port % 8),
{
    assert((((port & 0b111usize) | 0b1000usize) << 1usize) == 16 + 2 * (port % 8)) by (bit_vector);
    assert((((port & 0b111usize) | 0b1000usize) << 1usize) < 32) by (bit_vector);
    (((port & 0b111) | 0b1000) << 1) as u8
}

/// Checks the arguments of an unmap request.
pub fn munmap_check(start: u64, len: u64) -> (r: MapCheck)
    ensures
        r == munmap_outcome(start, len),
{
    if !is_user_va(start) {
        return MapCheck::Return(-1);
    }
    if start % PAGE_SIZE != 0 {
        return MapCheck::Return(-1);
    }
    if len == 0 {
        return MapCheck::Return(0);
    }
    match start.checked_add(len) {
        Some(end) => MapCheck::Region(page_range(start, end)),
        None => MapCheck::Return(-1),
    }
}

/// Given, for each page of a range, whether a page-table entry exists and if
/// so whether it is valid: does some page already have a valid mapping?
pub fn range_has_valid_mapping(entries: &[Option<bool>]) -> (r: bool)
    ensures
        r == exists|k: int| 0 <= k < entries@.len() && entries@[k] == Some(true),
{
    let mut k: usize = 0;
    while k < entries.len()
        invariant
            k <= entries@.len(),
            forall|j: int| 0 <= j < k ==> entries@[j] != Some(true),
        decreases entries@.len() - k,
    {
        if let Some(valid) = entries[k] {
            if valid {
                return true;
            }
        }
        k = k + 1;
    }
    false
}

/// Given, for each page of a range, whether a page-table entry exists (and
/// whether it is valid): does every page have an entry?
pub fn range_fully_mapped(entries: &[Option<bool>]) -> (r: bool)
    ensures
        r == forall|k: int| 0 <= k < entries@.len() ==> entries@[k] is Some,
{
    let mut k: usize = 0;
    while k < entries.len()
        invariant
            k <= entries@.len(),
            forall|j: int| 0 <= j < k ==> entries@[j] is Some,
        decreases entries@.len() - k,
    {
        if entries[k].is_none() {
            return false;
        }
        k = k + 1;
    }
    true
}

/// Below the top of the Sv39 space, a range's page numbers run from the page
/// holding its first byte to the page holding its last: every address of
/// the range lies in one of those pages, and each of those pages holds some
/// address of the range.
pub proof fn lemma_page_range_covers(start: u64, end: u64)
    requires
        start < end < va_limit(),
    ensures
        ({
            let r = page_range_of(start, end);
            &&& r.start_vpn == start / 4096
            &&& r.end_vpn == (end - 1) / 4096 + 1
            &&& forall|a: int| start <= a < end ==> r.start_vpn <= #[trigger] (a / 4096) < r.end_vpn
        }),
{
    assert((end - 1 + 4096) / 4096 == (end - 1) / 4096 + 1) by (nonlinear_arith)
        requires
            end >= 1,
    ;
    assert forall|a: int| start <= a < end implies start / 4096 <= #[trigger] (a / 4096) <= (end
        - 1) / 4096 by {
        assert(start / 4096 <= a / 4096) by (nonlinear_arith)
            requires
                start <= a,
        ;
        assert(a / 4096 <= (end - 1) / 4096) by (nonlinear_arith)
            requires
                a <= end - 1,
        ;
    }
}

/// The shares of a chunked copy follow one another in the source: the first
/// starts at offset 0, each starts where the previous one stopped, and none
/// goes past the source or past its chunk.
pub proof fn lemma_chunk_shares_contiguous(lens: Seq<usize>, src_len: int, c: int)
    requires
        src_len >= 0,
        0 <= c,
        c + 1 < lens.len(),
    ensures
        chunk_share(lens, src_len, 0).0 == 0,
        chunk_share(lens, src_len, c + 1).0 == chunk_share(lens, src_len, c).0 + chunk_share(
            lens,
            src_len,
            c,
        ).1,
        0 <= chunk_share(lens, src_len, c).1 <= lens[c],
        chunk_share(lens, src_len, c).0 + chunk_share(lens, src_len, c).1 <= src_len,
{
    lemma_chunks_before_monotone(lens, 0, c);
}

/// `vpn` is the number of the first page that starts at or after `va`.
pub open spec fn is_ceiling_page(vpn: int, va: int) -> bool {
    &&& vpn * 4096 >= va
    &&& (vpn == 0 || (vpn - 1) * 4096 < va)
}

proof fn lemma_page_range_of(start: u64, end: u64)
    ensures
        page_range_of(start, end).start == start,
        page_range_of(start, end).end == end,
        page_range_of(start, end).start_vpn * 4096 <= va_of(start) < (page_range_of(
            start,
            end,
        ).start_vpn + 1) * 4096,
        is_ceiling_page(page_range_of(start, end).end_vpn as int, va_of(end)),
{
    let vs = va_of(start);
    let ve = va_of(end);
    assert(0 <= vs < va_limit() && 0 <= ve < va_limit());
    assert((vs / 4096) * 4096 <= vs < (vs / 4096 + 1) * 4096) by (nonlinear_arith)
        requires
            vs >= 0,
    ;
    if ve > 0 {
        let c = (ve - 1 + 4096) / 4096;
        assert(c * 4096 >= ve && (c - 1) * 4096 < ve) by (nonlinear_arith)
            requires
                c == (ve - 1 + 4096) / 4096,
                ve >= 1,
        ;
        assert(c < 0x1_0000_0000_0000_0000int) by (nonlinear_arith)
            requires
                c == (ve - 1 + 4096) / 4096,
                ve < 0x80_0000_0000int,
        ;
    }
    assert(vs / 4096 < 0x1_0000_0000_0000_0000int);
}

/// A map request is answered 0 exactly when its arguments are valid and its
/// length is zero; it goes on to map exactly when they are valid, the length
/// is positive and the range does not wrap, and then the range runs from
/// `start` to `start + len`, from the page holding `start` to the first page
/// at or after the end address (taken within the Sv39 space); every other
/// request is answered -1.
pub proof fn lemma_mmap_outcomes(start: u64, len: u64, port: usize)
    ensures
        ({
            let valid = 1 <= port <= 7 && start % 4096 == 0 && start < va_limit();
            &&& (mmap_outcome(start, len, port) == MapCheck::Return(0isize)) == (valid && len == 0)
            &&& (mmap_outcome(start, len, port) is Region) == (valid && len > 0 && start + len
                <= u64::MAX)
            &&& (mmap_outcome(start, len, port) == MapCheck::Return(-1isize)) == !(valid && (len == 0
                || start + len <= u64::MAX))
            &&& mmap_outcome(start, len, port) matches MapCheck::Region(r) ==> {
                &&& r.start == start
                &&& r.end == start + len
                &&& r.start_vpn == start / 4096
                &&& is_ceiling_page(r.end_vpn as int, (start + len) % va_limit())
            }
        }),
{
    if start + len <= u64::MAX {
        lemma_page_range_of(start, (start + len) as u64);
    }
}

/// An unmap request is answered 0 exactly when its start is a page-aligned
/// user address and its length is zero; it goes on exactly when the start
/// is valid, the length positive and the range does not wrap, and then the
/// range runs from `start` to `start + len`, from the page holding `start`
/// to the first page at or after the end address (taken within the Sv39
/// space); every other request is answered -1.
pub proof fn lemma_munmap_outcomes(start: u64, len: u64)
    ensures
        ({
            let valid = start % 4096 == 0 && start < va_limit();
            &&& (munmap_outcome(start, len) == MapCheck::Return(0isize)) == (valid && len == 0)
            &&& (munmap_outcome(start, len) is Region) == (valid && len > 0 && start + len
                <= u64::MAX)
            &&& (munmap_outcome(start, len) == MapCheck::Return(-1isize)) == !(valid && (len == 0
                || start + len <= u64::MAX))
            &&& munmap_outcome(start, len) matches MapCheck::Region(r) ==> {
                &&& r.start == start
                &&& r.end == start + len
                &&& r.start_vpn == start / 4096
                &&& is_ceiling_page(r.end_vpn as int, (start + len) % va_limit())
            }
        }),
{
    if start + len <= u64::MAX {
        lemma_page_range_of(start, (start + len) as u64);
    }
}

/// Each chunk of a copy is filled from its start with the next bytes of the
/// source: completely while the source lasts, partly by the last bytes, and
/// not at all once the source is used up.
pub proof fn lemma_chunk_share_fills(lens: Seq<usize>, src_len: int, c: int)
    requires
        src_len >= 0,
        0 <= c < lens.len(),
    ensures
        chunk_share(lens, src_len, c).0 == if chunks_before(lens, c) < src_len {
            chunks_before(lens, c)
        } else {
            src_len
        },
        chunks_before(lens, c) + lens[c] <= src_len ==> chunk_share(lens, src_len, c).1 == lens[c],
        chunks_before(lens, c) < src_len < chunks_before(lens, c) + lens[c] ==> chunk_share(
            lens,
            src_len,
            c,
        ).1 == src_len - chunks_before(lens, c),
        chunks_before(lens, c) >= src_len ==> chunk_share(lens, src_len, c).1 == 0,
        chunks_before(lens, c + 1) == chunks_before(lens, c) + lens[c],
{
}

} // verus!
