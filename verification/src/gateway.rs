//! The byte formats of the kernel's files: the page map of a process and
//! the commands that the control files take.
//!
//! The functions here decide what is read and written; the caller performs
//! the reads and writes.

use crate::error::ErrorKind;
use crate::text::{ascii, digits, push_number, push_text};
use crate::uksm::{PidAddr, UKSMPagemapEntry};
use vstd::prelude::*;

verus! {

/// The control file that merges two pages.
pub const MERGE_PATH: &'static str = "/proc/uksm/merge";

/// The control file that tells whether two pages hold the same bytes.
pub const COMPARE_PATH: &'static str = "/proc/uksm/cmp";

/// The control file that takes a page out of its merged set.
pub const UNMERGE_PATH: &'static str = "/proc/uksm/unmerge";

/// The control file that flushes the kernel's deferred page lists.
pub const LRU_ADD_DRAIN_ALL_PATH: &'static str = "/proc/uksm/lru_add_drain_all";

/// What is written to `LRU_ADD_DRAIN_ALL_PATH`.
pub const LRU_ADD_DRAIN_ALL_COMMAND: &'static str = "1";

/// The error number by which the kernel says that two pages differ.
pub const EPAGESNOTSAME: i32 = 541;

/// The size of one record of the page map, in bytes.
pub const UKSM_PAGEMAP_ENTRY_SIZE: u64 = 16;

/// How many records one read of the page map asks for at most.
pub const PAGEMAP_CHUNK: u64 = 256;

/// The bits of the first word that hold the page frame number.
pub const PM_PFRAME_MASK: u64 = 0x007f_ffff_ffff_ffff;

/// The bits of the second word that hold the fingerprint.
pub const UKSM_CRC_MASK: u64 = 0x0000_0000_ffff_ffff;

/// The bit of the second word that says that a fingerprint is there.
pub const UKSM_CRC_PRESENT: u64 = 0x8000_0000_0000_0000;

/// The bit of the second word that marks a transparent huge page.
pub const UKSM_PM_THP: u64 = 0x4000_0000_0000_0000;

/// The bit of the second word that marks a page of the merged pool.
pub const UKSM_PM_KSM: u64 = 0x2000_0000_0000_0000;

/// The order in which the bytes of a word lie in memory.
#[derive(Debug, Clone, Copy, PartialEq, Eq, Structural)]
pub enum ByteOrder {
    /// Least significant byte first.
    Little,
    /// Most significant byte first.
    Big,
}

/// The number that bytes write, least significant byte first.
pub open spec fn le_value(bytes: Seq<u8>) -> nat
    decreases bytes.len(),
{
    if bytes.len() == 0 {
        0
    } else {
        bytes[0] as nat + 256 * le_value(bytes.skip(1))
    }
}

/// The word that eight bytes hold in the given order.
pub open spec fn word(bytes: Seq<u8>, order: ByteOrder) -> u64 {
    match order {
        ByteOrder::Little => le_value(bytes) as u64,
        ByteOrder::Big => le_value(bytes.reverse()) as u64,
    }
}

/// What the two words of a record say of a page: nothing where the record
/// holds no fingerprint, else the page frame number, the fingerprint and
/// the two flags.
pub open spec fn entry_of(pme: u64, uksm_pme: u64) -> Option<UKSMPagemapEntry> {
    if uksm_pme & UKSM_CRC_PRESENT == 0 {
        None
    } else {
        Some(
            UKSMPagemapEntry {
                pfn: pme & PM_PFRAME_MASK,
                crc: (uksm_pme & UKSM_CRC_MASK) as u32,
                is_thp: uksm_pme & UKSM_PM_THP != 0,
                is_ksm: uksm_pme & UKSM_PM_KSM != 0,
            },
        )
    }
}

/// Reads the two words of a record.
pub fn decode_entry(pme: u64, uksm_pme: u64) -> (r: Option<UKSMPagemapEntry>)
    ensures
        r == entry_of(pme, uksm_pme),
{
    if uksm_pme & UKSM_CRC_PRESENT == 0 {
        None
    } else {
        let crc = uksm_pme & UKSM_CRC_MASK;
        assert(crc <= 0xffff_ffff) by (bit_vector)
            requires
                crc == uksm_pme & 0x0000_0000_ffff_ffff,
        ;
        Some(
            UKSMPagemapEntry {
                pfn: pme & PM_PFRAME_MASK,
                crc: crc as u32,
                is_thp: uksm_pme & UKSM_PM_THP != 0,
                is_ksm: uksm_pme & UKSM_PM_KSM != 0,
            },
        )
    }
}

/// The eight bytes of `bytes` that begin at the index `at` hold less than
/// two to the power of 64.
pub proof fn lemma_le_value_bound(bytes: Seq<u8>)
    requires
        bytes.len() == 8,
    ensures
        le_value(bytes) <= u64::MAX,
        le_value(bytes) == bytes[0] + 0x100 * bytes[1] + 0x1_0000 * bytes[2] + 0x100_0000 * bytes[3]
            + 0x1_0000_0000 * bytes[4] + 0x100_0000_0000 * bytes[5] + 0x1_0000_0000_0000 * bytes[6]
            + 0x100_0000_0000_0000 * bytes[7],
{
    reveal_with_fuel(le_value, 9);
    let s1 = bytes.skip(1);
    let s2 = s1.skip(1);
    let s3 = s2.skip(1);
    let s4 = s3.skip(1);
    let s5 = s4.skip(1);
    let s6 = s5.skip(1);
    let s7 = s6.skip(1);
    let s8 = s7.skip(1);
    assert(s8.len() == 0);
    assert(le_value(s8) == 0);
    assert(le_value(s7) == bytes[7]);
    assert(le_value(s6) == bytes[6] + 256 * le_value(s7));
    assert(le_value(s5) == bytes[5] + 256 * le_value(s6));
    assert(le_value(s4) == bytes[4] + 256 * le_value(s5));
    assert(le_value(s3) == bytes[3] + 256 * le_value(s4));
    assert(le_value(s2) == bytes[2] + 256 * le_value(s3));
    assert(le_value(s1) == bytes[1] + 256 * le_value(s2));
}

/// Reads the word that the eight bytes at the index `at` hold.
pub fn read_word(bytes: &[u8], at: usize, order: ByteOrder) -> (w: u64)
    requires
        at + 8 <= bytes@.len(),
    ensures
        w == word(bytes@.subrange(at as int, at + 8), order),
{
    let ghost part = bytes@.subrange(at as int, at + 8);
    assert(bytes.len() <= usize::MAX);
    let mut w: u64 = 0;
    let mut i: usize = 0;
    proof {
        match order {
            ByteOrder::Little => lemma_le_value_bound(part),
            ByteOrder::Big => lemma_le_value_bound(part.reverse()),
        }
    }
    let ghost seen = match order {
        ByteOrder::Little => part,
        ByteOrder::Big => part.reverse(),
    };
    while i < 8
        invariant
            i <= 8,
            at + 8 <= bytes@.len() <= usize::MAX,
            part == bytes@.subrange(at as int, at + 8),
            seen == match order {
                ByteOrder::Little => part,
                ByteOrder::Big => part.reverse(),
            },
            seen.len() == 8,
            le_value(seen.skip(8 - i)) == w,
            le_value(seen) <= u64::MAX,
        decreases 8 - i,
    {
        // The bytes are taken from the most significant one down.
        let b = match order {
            ByteOrder::Little => bytes[at + 7 - i],
            ByteOrder::Big => bytes[at + i],
        };
        proof {
            let tail = seen.skip(8 - i - 1);
            assert(tail.skip(1) =~= seen.skip(8 - i));
            assert(tail[0] == b);
            assert(le_value(tail) == b + 256 * w);
            lemma_le_value_suffix(seen, 8 - i - 1);
        }
        w = w * 256 + b as u64;
        i += 1;
    }
    assert(seen.skip(0) =~= seen);
    w
}

/// What the bytes after an index write is no more than what all the bytes
/// write.
pub proof fn lemma_le_value_suffix(bytes: Seq<u8>, from: int)
    requires
        0 <= from <= bytes.len(),
    ensures
        le_value(bytes.skip(from)) <= le_value(bytes),
    decreases from,
{
    if from > 0 {
        lemma_le_value_suffix(bytes.skip(1), from - 1);
        assert(bytes.skip(1).skip(from - 1) =~= bytes.skip(from));
    } else {
        assert(bytes.skip(0) =~= bytes);
    }
}

/// What the record with the index `i` of a buffer says of its page.
pub open spec fn record(bytes: Seq<u8>, i: int, order: ByteOrder) -> Option<UKSMPagemapEntry> {
    entry_of(
        word(bytes.subrange(16 * i, 16 * i + 8), order),
        word(bytes.subrange(16 * i + 8, 16 * i + 16), order),
    )
}

/// What the records of a buffer say of their pages, in the order of the
/// buffer.  Bytes after the last whole record are not read.
pub open spec fn records(bytes: Seq<u8>, order: ByteOrder) -> Seq<Option<UKSMPagemapEntry>> {
    Seq::new((bytes.len() / 16) as nat, |i: int| record(bytes, i, order))
}

/// Reads the records of a buffer and appends what they say to `out`.
pub fn decode_pagemap(bytes: &[u8], order: ByteOrder, out: &mut Vec<Option<UKSMPagemapEntry>>)
    ensures
        final(out)@ == old(out)@ + records(bytes@, order),
{
    let count = bytes.len() / 16;
    let mut i: usize = 0;
    while i < count
        invariant
            i <= count,
            count == bytes@.len() / 16,
            16 * count <= bytes@.len() <= usize::MAX,
            out@ == old(out)@ + records(bytes@, order).take(i as int),
        decreases count - i,
    {
        let pme = read_word(bytes, 16 * i, order);
        let uksm_pme = read_word(bytes, 16 * i + 8, order);
        out.push(decode_entry(pme, uksm_pme));
        proof {
            let all = records(bytes@, order);
            assert(all.take(i + 1) =~= all.take(i as int).push(all[i as int]));
        }
        i += 1;
    }
    assert(records(bytes@, order).take(i as int) =~= records(bytes@, order));
}

/// The reads that fetch the records of the pages of an address interval,
/// and the records that have come in so far.
#[derive(Debug)]
pub struct PagemapRead {
    /// The index of the first page of the interval.
    pub first: u64,
    /// The index of the page whose record is read next.
    pub index: u64,
    /// The index of the page after the last one of the interval.
    pub end_index: u64,
    /// The byte order of the machine.
    pub order: ByteOrder,
    /// What the records say that have come in.
    pub entries: Vec<Option<UKSMPagemapEntry>>,
}

impl PagemapRead {
    /// One entry has come in for each page before `index`.
    pub open spec fn wf(self) -> bool {
        &&& self.first <= self.index
        &&& self.entries@.len() == self.index - self.first
        &&& (self.index <= self.end_index || self.index == self.first)
    }

    /// How many records the next read asks for: what is left of the
    /// interval, and no more than `PAGEMAP_CHUNK`.
    pub open spec fn chunk(self) -> nat {
        if self.index >= self.end_index {
            0
        } else if self.end_index - self.index > PAGEMAP_CHUNK {
            PAGEMAP_CHUNK as nat
        } else {
            (self.end_index - self.index) as nat
        }
    }

    /// Whether a record has come in for every page of the interval.
    pub open spec fn complete(self) -> bool {
        self.index >= self.end_index
    }

    /// Plans the reads for the pages of `[start, end)`.
    pub fn new(start: u64, end: u64, page_size: u64, order: ByteOrder) -> (read: Self)
        requires
            page_size > 0,
        ensures
            read.wf(),
            read.first == start / page_size,
            read.index == start / page_size,
            read.end_index == end / page_size,
            read.order == order,
            read.entries@.len() == 0,
    {
        PagemapRead {
            first: start / page_size,
            index: start / page_size,
            end_index: end / page_size,
            order,
            entries: Vec::new(),
        }
    }

    /// The next read: the offset in the file and the number of bytes.
    /// `None` when the records of all pages are in.
    ///
    /// Fails where the offset does not fit in 64 bits.
    pub fn next_read(&self) -> (r: Result<Option<(u64, usize)>, ErrorKind>)
        ensures
            match r {
                Ok(None) => self.complete(),
                Ok(Some((offset, len))) => {
                    &&& !self.complete()
                    &&& offset == self.index * UKSM_PAGEMAP_ENTRY_SIZE
                    &&& len == self.chunk() * UKSM_PAGEMAP_ENTRY_SIZE
                },
                Err(e) => {
                    &&& !self.complete()
                    &&& self.index * UKSM_PAGEMAP_ENTRY_SIZE > u64::MAX
                    &&& e == ErrorKind::PagemapMalformed
                },
            },
    {
        if self.index >= self.end_index {
            return Ok(None);
        }
        let left = self.end_index - self.index;
        let count: u64 = if left > PAGEMAP_CHUNK {
            PAGEMAP_CHUNK
        } else {
            left
        };
        match self.index.checked_mul(UKSM_PAGEMAP_ENTRY_SIZE) {
            Some(offset) => Ok(Some((offset, (count * UKSM_PAGEMAP_ENTRY_SIZE) as usize))),
            None => Err(ErrorKind::PagemapMalformed),
        }
    }

    /// Takes in the bytes that the read planned by `next_read` has fetched.
    ///
    /// Fails, and changes nothing, where no read was due or where `bytes`
    /// has another length than was asked for.
    pub fn accept(&mut self, bytes: &[u8]) -> (r: Result<(), ErrorKind>)
        requires
            old(self).wf(),
        ensures
            final(self).wf(),
            final(self).first == old(self).first,
            final(self).end_index == old(self).end_index,
            final(self).order == old(self).order,
            match r {
                Ok(()) => {
                    &&& !old(self).complete()
                    &&& bytes@.len() == old(self).chunk() * UKSM_PAGEMAP_ENTRY_SIZE
                    &&& final(self).index == old(self).index + old(self).chunk()
                    &&& final(self).entries@ == old(self).entries@ + records(
                        bytes@,
                        old(self).order,
                    )
                },
                Err(e) => {
                    &&& e == ErrorKind::PagemapMalformed
                    &&& (old(self).complete() || bytes@.len() != old(self).chunk()
                        * UKSM_PAGEMAP_ENTRY_SIZE)
                    &&& *final(self) == *old(self)
                },
            },
    {
        if self.index >= self.end_index {
            return Err(ErrorKind::PagemapMalformed);
        }
        let left = self.end_index - self.index;
        let count: u64 = if left > PAGEMAP_CHUNK {
            PAGEMAP_CHUNK
        } else {
            left
        };
        if bytes.len() != (count * UKSM_PAGEMAP_ENTRY_SIZE) as usize {
            return Err(ErrorKind::PagemapMalformed);
        }
        decode_pagemap(bytes, self.order, &mut self.entries);
        self.index = self.index + count;
        Ok(())
    }

    /// What the records say, one entry for each page, in the order of the
    /// addresses.
    pub fn into_entries(self) -> (entries: Vec<Option<UKSMPagemapEntry>>)
        ensures
            entries == self.entries,
    {
        self.entries
    }
}

/// Plans the reads that fetch what the kernel reports of the pages of
/// `[start, end)`.
pub fn read_uksm_pagemap(start: u64, end: u64, page_size: u64, order: ByteOrder) -> (read:
    PagemapRead)
    requires
        page_size > 0,
    ensures
        read.wf(),
        read.first == start / page_size,
        read.index == start / page_size,
        read.end_index == end / page_size,
        read.order == order,
        read.entries@.len() == 0,
{
    PagemapRead::new(start, end, page_size, order)
}

/// How a control file names a page: the process in decimal, a space, `0x`
/// and the address in hexadecimal.
pub open spec fn page_text(page: PidAddr) -> Seq<u8> {
    digits(page.pid as nat, 10) + ascii(" 0x"@) + digits(page.addr as nat, 16)
}

/// Appends the name of a page to `out`.
pub fn push_page(out: &mut Vec<u8>, page: &PidAddr)
    ensures
        final(out)@ == old(out)@ + page_text(*page),
{
    proof {
        reveal_strlit(" 0x");
    }
    push_number(out, page.pid, 10);
    push_text(out, " 0x");
    push_number(out, page.addr, 16);
    assert(out@ =~= old(out)@ + page_text(*page));
}

/// The command that asks whether two pages hold the same bytes, and the
/// command that merges them: the names of the two pages with a space
/// between them.
pub fn merge_command(pa1: &PidAddr, pa2: &PidAddr) -> (command: Vec<u8>)
    ensures
        command@ == page_text(*pa1) + ascii(" "@) + page_text(*pa2),
{
    proof {
        reveal_strlit(" ");
    }
    let mut command: Vec<u8> = Vec::new();
    push_page(&mut command, pa1);
    push_text(&mut command, " ");
    push_page(&mut command, pa2);
    assert(command@ =~= page_text(*pa1) + ascii(" "@) + page_text(*pa2));
    command
}

/// The command that takes a page out of its merged set: the name of the
/// page.
pub fn unmerge_command(pa: &PidAddr) -> (command: Vec<u8>)
    ensures
        command@ == page_text(*pa),
{
    let mut command: Vec<u8> = Vec::new();
    push_page(&mut command, pa);
    assert(command@ =~= page_text(*pa));
    command
}

/// The path of a file of a process: `/proc/`, the process in decimal, `/`
/// and the name of the file.
pub fn proc_path(pid: u64, file: &str) -> (path: Vec<u8>)
    requires
        file.is_ascii(),
    ensures
        path@ == ascii("/proc/"@) + digits(pid as nat, 10) + ascii("/"@) + ascii(file@),
{
    proof {
        reveal_strlit("/proc/");
        reveal_strlit("/");
    }
    let mut path: Vec<u8> = Vec::new();
    push_text(&mut path, "/proc/");
    push_number(&mut path, pid, 10);
    push_text(&mut path, "/");
    push_text(&mut path, file);
    assert(path@ =~= ascii("/proc/"@) + digits(pid as nat, 10) + ascii("/"@) + ascii(file@));
    path
}

/// How writing a command to a control file ended.
#[derive(Debug, Clone, Copy, PartialEq, Eq, Structural)]
pub enum WriteOutcome {
    /// The command was written.
    Written,
    /// The file could not be opened.
    Unopened,
    /// The write failed, with the error number of the operating system if
    /// it gave one.
    Refused { errno: Option<i32> },
}

/// The two writes that merge a pair of pages.
#[derive(Debug, Clone, Copy, PartialEq, Eq, Structural)]
pub enum MergeStage {
    /// Asking whether the two pages hold the same bytes.
    Compare,
    /// Merging them.
    Merge,
}

/// What merging a pair of pages needs next.
#[derive(Debug, Clone, Copy, PartialEq, Eq)]
pub enum MergeStep {
    /// The command is to be written to the file of this stage.
    Write(MergeStage),
    /// The kernel has merged the pages (`true`) or found them to differ
    /// (`false`), or a write has failed.
    Finished(Result<bool, ErrorKind>),
}

/// What follows a write: after no write, the comparison; after a
/// comparison that went through, the merge; after a merge that went
/// through, success.  A write that the kernel refuses with
/// `EPAGESNOTSAME` says that the pages differ; every other failure is an
/// error.
pub open spec fn merge_next(done: Option<(MergeStage, WriteOutcome)>) -> MergeStep {
    match done {
        None => MergeStep::Write(MergeStage::Compare),
        Some((MergeStage::Compare, WriteOutcome::Written)) => MergeStep::Write(MergeStage::Merge),
        Some((MergeStage::Merge, WriteOutcome::Written)) => MergeStep::Finished(Ok(true)),
        Some((_, WriteOutcome::Refused { errno: Some(code) })) => if code == EPAGESNOTSAME {
            MergeStep::Finished(Ok(false))
        } else {
            MergeStep::Finished(Err(ErrorKind::KernelIoError))
        },
        Some(_) => MergeStep::Finished(Err(ErrorKind::KernelIoError)),
    }
}

/// Decides what merging a pair of pages needs next, given the write that
/// was made last and how it ended.
pub fn merge_pages(done: Option<(MergeStage, WriteOutcome)>) -> (step: MergeStep)
    ensures
        step == merge_next(done),
{
    match done {
        None => MergeStep::Write(MergeStage::Compare),
        Some((stage, outcome)) => match outcome {
            WriteOutcome::Written => match stage {
                MergeStage::Compare => MergeStep::Write(MergeStage::Merge),
                MergeStage::Merge => MergeStep::Finished(Ok(true)),
            },
            WriteOutcome::Refused { errno: Some(code) } => if code == EPAGESNOTSAME {
                MergeStep::Finished(Ok(false))
            } else {
                MergeStep::Finished(Err(ErrorKind::KernelIoError))
            },
            _ => MergeStep::Finished(Err(ErrorKind::KernelIoError)),
        },
    }
}

/// The file that a stage writes to.
pub fn merge_path(stage: MergeStage) -> (path: &'static str)
    ensures
        path == match stage {
            MergeStage::Compare => COMPARE_PATH,
            MergeStage::Merge => MERGE_PATH,
        },
{
    match stage {
        MergeStage::Compare => COMPARE_PATH,
        MergeStage::Merge => MERGE_PATH,
    }
}

/// Whether the kernel has taken a page out of its merged set, given how
/// the write of the command ended.
pub fn unmerge_pages(outcome: WriteOutcome) -> (r: Result<(), ErrorKind>)
    ensures
        r == if outcome == WriteOutcome::Written {
            Ok::<(), ErrorKind>(())
        } else {
            Err(ErrorKind::KernelIoError)
        },
{
    match outcome {
        WriteOutcome::Written => Ok(()),
        _ => Err(ErrorKind::KernelIoError),
    }
}

/// Whether the kernel can merge pages at all, given whether `MERGE_PATH`
/// could be opened for writing.
pub fn check_kernel(opened: bool) -> (r: Result<(), ErrorKind>)
    ensures
        r == if opened {
            Ok::<(), ErrorKind>(())
        } else {
            Err(ErrorKind::KernelUnavailable)
        },
{
    if opened {
        Ok(())
    } else {
        Err(ErrorKind::KernelUnavailable)
    }
}

/// Whether the kernel has flushed its deferred page lists, given how the
/// write of `LRU_ADD_DRAIN_ALL_COMMAND` ended.
pub fn lru_add_drain_all(outcome: WriteOutcome) -> (r: Result<(), ErrorKind>)
    ensures
        r == if outcome == WriteOutcome::Written {
            Ok::<(), ErrorKind>(())
        } else {
            Err(ErrorKind::KernelIoError)
        },
{
    match outcome {
        WriteOutcome::Written => Ok(()),
        _ => Err(ErrorKind::KernelIoError),
    }
}

} // verus!
