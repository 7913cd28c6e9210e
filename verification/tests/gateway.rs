use uksmd::error::ErrorKind;
use uksmd::gateway::{
    check_kernel, decode_entry, decode_pagemap, lru_add_drain_all, merge_command, merge_pages,
    merge_path, proc_path, read_uksm_pagemap, read_word, unmerge_command, unmerge_pages,
    ByteOrder, MergeStage, MergeStep, PagemapRead, WriteOutcome, COMPARE_PATH, EPAGESNOTSAME,
    LRU_ADD_DRAIN_ALL_COMMAND, LRU_ADD_DRAIN_ALL_PATH, MERGE_PATH, UNMERGE_PATH,
};
use uksmd::uksm::{PidAddr, UKSMPagemapEntry};

const PRESENT: u64 = 1 << 63;
const THP: u64 = 1 << 62;
const KSM: u64 = 1 << 61;

fn record(pme: u64, uksm_pme: u64) -> Vec<u8> {
    let mut bytes = pme.to_le_bytes().to_vec();
    bytes.extend_from_slice(&uksm_pme.to_le_bytes());
    bytes
}

#[test]
fn a_record_without_fingerprint_is_absent() {
    assert_eq!(decode_entry(0x1234, 0), None);
    assert_eq!(decode_entry(0x1234, THP | KSM | 0xdead_beef), None);
}

#[test]
fn a_record_with_fingerprint_gives_its_fields() {
    assert_eq!(
        decode_entry(0x0012_3456_789a_bcde, PRESENT | 0xdead_beef),
        Some(UKSMPagemapEntry {
            pfn: 0x0012_3456_789a_bcde,
            crc: 0xdead_beef,
            is_thp: false,
            is_ksm: false
        })
    );
    assert_eq!(
        decode_entry(u64::MAX, u64::MAX),
        Some(UKSMPagemapEntry {
            pfn: (1 << 55) - 1,
            crc: u32::MAX,
            is_thp: true,
            is_ksm: true
        })
    );
    assert_eq!(
        decode_entry(1 << 55, PRESENT | KSM | (1 << 32)),
        Some(UKSMPagemapEntry { pfn: 0, crc: 0, is_thp: false, is_ksm: true })
    );
    assert_eq!(
        decode_entry(7, PRESENT | THP | 5),
        Some(UKSMPagemapEntry { pfn: 7, crc: 5, is_thp: true, is_ksm: false })
    );
}

#[test]
fn words_are_read_in_both_byte_orders() {
    let bytes = [0x00u8, 0x01, 0x02, 0x03, 0x04, 0x05, 0x06, 0x07, 0x08, 0x09];
    assert_eq!(read_word(&bytes, 1, ByteOrder::Little), 0x0807_0605_0403_0201);
    assert_eq!(read_word(&bytes, 1, ByteOrder::Big), 0x0102_0304_0506_0708);
    assert_eq!(read_word(&[0xff; 8], 0, ByteOrder::Little), u64::MAX);
    assert_eq!(read_word(&[0; 8], 0, ByteOrder::Big), 0);
    let n = 0x1122_3344_5566_7788u64;
    assert_eq!(read_word(&n.to_le_bytes(), 0, ByteOrder::Little), n);
    assert_eq!(read_word(&n.to_be_bytes(), 0, ByteOrder::Big), n);
}

#[test]
fn a_buffer_is_decoded_record_by_record() {
    let mut bytes = record(1, PRESENT | 0xa);
    bytes.extend(record(2, 0));
    bytes.extend(record(3, PRESENT | KSM | 0xc));
    bytes.extend([1, 2, 3]);
    let mut out = vec![None];
    decode_pagemap(&bytes, ByteOrder::Little, &mut out);
    assert_eq!(
        out,
        vec![
            None,
            Some(UKSMPagemapEntry { pfn: 1, crc: 0xa, is_thp: false, is_ksm: false }),
            None,
            Some(UKSMPagemapEntry { pfn: 3, crc: 0xc, is_thp: false, is_ksm: true }),
        ]
    );
}

#[test]
fn the_page_map_is_read_in_chunks_of_256_records() {
    let mut read = read_uksm_pagemap(0x10_0000, 0x10_0000 + 600 * 0x1000, 0x1000, ByteOrder::Little);
    assert_eq!(read.next_read(), Ok(Some((0x100 * 16, 256 * 16))));
    assert_eq!(read.accept(&vec![0u8; 256 * 16]), Ok(()));
    assert_eq!(read.next_read(), Ok(Some(((0x100 + 256) * 16, 256 * 16))));
    assert_eq!(read.accept(&vec![0u8; 256 * 16]), Ok(()));
    assert_eq!(read.next_read(), Ok(Some(((0x100 + 512) * 16, 88 * 16))));
    let mut last = vec![0u8; 88 * 16];
    last[87 * 16..].copy_from_slice(&record(9, PRESENT | 0x77));
    assert_eq!(read.accept(&last), Ok(()));
    assert_eq!(read.next_read(), Ok(None));
    let entries = read.into_entries();
    assert_eq!(entries.len(), 600);
    assert_eq!(entries[0], None);
    assert_eq!(
        entries[599],
        Some(UKSMPagemapEntry { pfn: 9, crc: 0x77, is_thp: false, is_ksm: false })
    );
}

#[test]
fn an_empty_interval_needs_no_read() {
    let read = PagemapRead::new(0x3000, 0x3000, 0x1000, ByteOrder::Little);
    assert_eq!(read.next_read(), Ok(None));
    assert_eq!(read.into_entries(), vec![]);
    let read = PagemapRead::new(0x5000, 0x3000, 0x1000, ByteOrder::Little);
    assert_eq!(read.next_read(), Ok(None));
}

#[test]
fn a_read_of_another_length_is_malformed() {
    let mut read = PagemapRead::new(0x1000, 0x4000, 0x1000, ByteOrder::Little);
    assert_eq!(read.next_read(), Ok(Some((16, 48))));
    assert_eq!(read.accept(&[0u8; 32]), Err(ErrorKind::PagemapMalformed));
    assert_eq!(read.accept(&[0u8; 64]), Err(ErrorKind::PagemapMalformed));
    assert_eq!(read.next_read(), Ok(Some((16, 48))));
    assert_eq!(read.accept(&[0u8; 48]), Ok(()));
    assert_eq!(read.accept(&[0u8; 0]), Err(ErrorKind::PagemapMalformed));
    assert_eq!(read.into_entries(), vec![None, None, None]);
}

#[test]
fn an_offset_that_does_not_fit_is_malformed() {
    let read = PagemapRead::new(u64::MAX - 1, u64::MAX, 1, ByteOrder::Little);
    assert_eq!(read.next_read(), Err(ErrorKind::PagemapMalformed));
}

#[test]
fn commands_name_pages_in_decimal_and_hexadecimal() {
    let a = PidAddr { pid: 100, addr: 0x1000 };
    let b = PidAddr { pid: 200, addr: 0x7fff_dead_b000 };
    assert_eq!(merge_command(&a, &b), "100 0x1000 200 0x7fffdeadb000".as_bytes().to_vec());
    assert_eq!(unmerge_command(&b), "200 0x7fffdeadb000".as_bytes().to_vec());
    assert_eq!(unmerge_command(&PidAddr { pid: 0, addr: 0 }), "0 0x0".as_bytes().to_vec());
    assert_eq!(
        merge_command(&a, &b),
        format!("{} 0x{:x} {} 0x{:x}", a.pid, a.addr, b.pid, b.addr).into_bytes()
    );
}

#[test]
fn paths_of_process_files() {
    assert_eq!(proc_path(4242, "smaps"), "/proc/4242/smaps".as_bytes().to_vec());
    assert_eq!(proc_path(1, "uksm_pagemap"), "/proc/1/uksm_pagemap".as_bytes().to_vec());
    assert_eq!(MERGE_PATH, "/proc/uksm/merge");
    assert_eq!(COMPARE_PATH, "/proc/uksm/cmp");
    assert_eq!(UNMERGE_PATH, "/proc/uksm/unmerge");
    assert_eq!(LRU_ADD_DRAIN_ALL_PATH, "/proc/uksm/lru_add_drain_all");
    assert_eq!(merge_path(MergeStage::Compare), COMPARE_PATH);
    assert_eq!(merge_path(MergeStage::Merge), MERGE_PATH);
}

#[test]
fn merging_compares_first_and_merges_then() {
    assert_eq!(merge_pages(None), MergeStep::Write(MergeStage::Compare));
    assert_eq!(
        merge_pages(Some((MergeStage::Compare, WriteOutcome::Written))),
        MergeStep::Write(MergeStage::Merge)
    );
    assert_eq!(
        merge_pages(Some((MergeStage::Merge, WriteOutcome::Written))),
        MergeStep::Finished(Ok(true))
    );
}

#[test]
fn pages_that_differ_are_no_error() {
    assert_eq!(EPAGESNOTSAME, 541);
    let differ = WriteOutcome::Refused { errno: Some(541) };
    assert_eq!(merge_pages(Some((MergeStage::Compare, differ))), MergeStep::Finished(Ok(false)));
    assert_eq!(merge_pages(Some((MergeStage::Merge, differ))), MergeStep::Finished(Ok(false)));
}

#[test]
fn other_failures_of_a_write_are_errors() {
    let failed = MergeStep::Finished(Err(ErrorKind::KernelIoError));
    for stage in [MergeStage::Compare, MergeStage::Merge] {
        assert_eq!(merge_pages(Some((stage, WriteOutcome::Refused { errno: Some(5) }))), failed);
        assert_eq!(merge_pages(Some((stage, WriteOutcome::Refused { errno: None }))), failed);
        assert_eq!(merge_pages(Some((stage, WriteOutcome::Unopened))), failed);
    }
}

#[test]
fn unmerging_needs_the_write_to_go_through() {
    assert_eq!(unmerge_pages(WriteOutcome::Written), Ok(()));
    assert_eq!(unmerge_pages(WriteOutcome::Unopened), Err(ErrorKind::KernelIoError));
    assert_eq!(
        unmerge_pages(WriteOutcome::Refused { errno: Some(541) }),
        Err(ErrorKind::KernelIoError)
    );
}

#[test]
fn the_kernel_is_unavailable_where_its_file_cannot_be_opened() {
    assert_eq!(check_kernel(true), Ok(()));
    assert_eq!(check_kernel(false), Err(ErrorKind::KernelUnavailable));
}

#[test]
fn draining_needs_the_write_to_go_through() {
    assert_eq!(LRU_ADD_DRAIN_ALL_COMMAND, "1");
    assert_eq!(lru_add_drain_all(WriteOutcome::Written), Ok(()));
    assert_eq!(lru_add_drain_all(WriteOutcome::Unopened), Err(ErrorKind::KernelIoError));
    assert_eq!(
        lru_add_drain_all(WriteOutcome::Refused { errno: None }),
        Err(ErrorKind::KernelIoError)
    );
}
