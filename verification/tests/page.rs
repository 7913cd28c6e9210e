use uksmd::error::ErrorKind;
use uksmd::page::{
    accept_page_size, find_non_overlapping_ranges, page_size, sample_fits, Bucket, Info,
    InfoStatus, PageEntry, Pass,
};
use uksmd::proc::MapRange;
use uksmd::uksm::{PidAddr, UKSMPagemapEntry, Uksm};

const P: u64 = 0x1000;
const A: u32 = 0xa;
const B: u32 = 0xb;
const B2: u32 = 0xb2;
const C: u32 = 0xc;

fn seen(crc: u32) -> Option<UKSMPagemapEntry> {
    Some(UKSMPagemapEntry { pfn: 1, crc, is_thp: false, is_ksm: false })
}

fn shared(crc: u32) -> Option<UKSMPagemapEntry> {
    Some(UKSMPagemapEntry { pfn: 1, crc, is_thp: false, is_ksm: true })
}

fn range(start: u64, end: u64) -> MapRange {
    MapRange { start, end }
}

fn page(pid: u64, addr: u64) -> PidAddr {
    PidAddr { pid, addr }
}

fn status(new_count: u64, old_count: u64, uksm_count: u64) -> InfoStatus {
    InfoStatus { new_count, old_count, uksm_count }
}

fn at(info: &Info, addr: u64) -> Option<(Bucket, u32)> {
    info.lookup(addr).map(|(bucket, entry)| (bucket, entry.crc))
}

/// Runs a pass that merges; `accept(known, page)` is the kernel.
fn merge(info: &mut Info, index: &mut Uksm, accept: &dyn Fn(PidAddr, PidAddr) -> bool) -> usize {
    let mut pass = info.merge_pass();
    let mut asked = 0;
    let mut verdict = None;
    while let Some((known, page)) = info.merge(index, &mut pass, verdict) {
        asked += 1;
        verdict = Some(accept(known, page));
    }
    asked
}

/// Runs a pass that unmerges; the kernel releases every page.
fn unmerge(info: &mut Info, index: &mut Uksm) -> Vec<PidAddr> {
    let mut pass = info.unmerge_pass();
    let mut told = Vec::new();
    let mut released = false;
    while let Some((page, _)) = info.unmerge(index, &mut pass, released) {
        told.push(page);
        released = true;
    }
    told
}

#[test]
fn single_process_stability() {
    let mut index = Uksm::new();
    let mut info = Info::new(100, P);
    let maps = vec![range(0x1000, 0x4000)];
    let samples = vec![vec![seen(A), seen(B), seen(C)]];
    assert_eq!(info.refresh(&mut index, maps.clone(), &samples), Ok(()));
    assert_eq!(at(&info, 0x1000), Some((Bucket::New, A)));
    assert_eq!(at(&info, 0x2000), Some((Bucket::New, B)));
    assert_eq!(at(&info, 0x3000), Some((Bucket::New, C)));
    assert_eq!(info.get_status(), status(3, 0, 0));
    assert_eq!(info.refresh(&mut index, maps, &samples), Ok(()));
    assert_eq!(at(&info, 0x1000), Some((Bucket::Old, A)));
    assert_eq!(at(&info, 0x2000), Some((Bucket::Old, B)));
    assert_eq!(at(&info, 0x3000), Some((Bucket::Old, C)));
    assert_eq!(info.get_status(), status(0, 3, 0));
}

#[test]
fn fingerprint_change() {
    let mut index = Uksm::new();
    let mut info = Info::new(100, P);
    let maps = vec![range(0x1000, 0x4000)];
    let samples = vec![vec![seen(A), seen(B), seen(C)]];
    assert_eq!(info.refresh(&mut index, maps.clone(), &samples), Ok(()));
    assert_eq!(info.refresh(&mut index, maps.clone(), &samples), Ok(()));
    let samples = vec![vec![seen(A), seen(B2), seen(C)]];
    assert_eq!(info.refresh(&mut index, maps, &samples), Ok(()));
    assert_eq!(at(&info, 0x1000), Some((Bucket::Old, A)));
    assert_eq!(at(&info, 0x2000), Some((Bucket::New, B2)));
    assert_eq!(at(&info, 0x3000), Some((Bucket::Old, C)));
    assert_eq!(info.get_status(), status(1, 2, 0));
}

#[test]
fn a_new_tracker_holds_nothing() {
    let info = Info::new(7, P);
    assert_eq!(info.pid(), 7);
    assert_eq!(info.get_status(), status(0, 0, 0));
    assert_eq!(info.get_status(), InfoStatus::default());
    assert_eq!(info.lookup(0x1000), None);
}

#[test]
fn update_follows_the_table_of_transitions() {
    let mut index = Uksm::new();
    let mut info = Info::new(100, P);
    let entry = |crc, is_ksm| UKSMPagemapEntry { pfn: 0, crc, is_thp: false, is_ksm };
    // absent -> new
    info.update(&mut index, 0x1000, entry(A, false));
    assert_eq!(at(&info, 0x1000), Some((Bucket::New, A)));
    // new, other fingerprint -> new
    info.update(&mut index, 0x1000, entry(B, false));
    assert_eq!(at(&info, 0x1000), Some((Bucket::New, B)));
    // new, same fingerprint -> old
    info.update(&mut index, 0x1000, entry(B, false));
    assert_eq!(at(&info, 0x1000), Some((Bucket::Old, B)));
    // old, same fingerprint -> old
    info.update(&mut index, 0x1000, entry(B, true));
    assert_eq!(at(&info, 0x1000), Some((Bucket::Old, B)));
    // old, other fingerprint -> new
    info.update(&mut index, 0x1000, entry(C, false));
    assert_eq!(at(&info, 0x1000), Some((Bucket::New, C)));
    info.update(&mut index, 0x1000, entry(C, false));
    assert_eq!(merge(&mut info, &mut index, &|_, _| true), 0);
    assert_eq!(at(&info, 0x1000), Some((Bucket::Merged, C)));
    assert_eq!(index.classes(C), vec![vec![page(100, 0x1000)]]);
    // merged, same fingerprint, still in the merged pool -> merged
    info.update(&mut index, 0x1000, entry(C, true));
    assert_eq!(at(&info, 0x1000), Some((Bucket::Merged, C)));
    assert_eq!(index.classes(C), vec![vec![page(100, 0x1000)]]);
    // merged, same fingerprint, no longer in the merged pool -> new
    info.update(&mut index, 0x1000, entry(C, false));
    assert_eq!(at(&info, 0x1000), Some((Bucket::New, C)));
    assert_eq!(index.len(), 0);
    info.update(&mut index, 0x1000, entry(C, false));
    merge(&mut info, &mut index, &|_, _| true);
    // merged, other fingerprint -> new
    info.update(&mut index, 0x1000, entry(A, true));
    assert_eq!(at(&info, 0x1000), Some((Bucket::New, A)));
    assert_eq!(index.len(), 0);
    assert_eq!(info.get_status(), status(1, 0, 0));
}

#[test]
fn remove_takes_a_page_out_of_any_bucket() {
    let mut index = Uksm::new();
    let mut info = Info::new(100, P);
    let maps = vec![range(0x1000, 0x4000)];
    let samples = vec![vec![seen(A), seen(B), seen(C)]];
    info.refresh(&mut index, maps.clone(), &samples).unwrap();
    info.refresh(&mut index, maps, &samples).unwrap();
    merge(&mut info, &mut index, &|_, _| true);
    info.update(&mut index, 0x5000, UKSMPagemapEntry { pfn: 0, crc: A, is_thp: false, is_ksm: false });
    info.update(&mut index, 0x6000, UKSMPagemapEntry { pfn: 0, crc: A, is_thp: false, is_ksm: false });
    info.update(&mut index, 0x6000, UKSMPagemapEntry { pfn: 0, crc: A, is_thp: false, is_ksm: false });
    assert_eq!(info.get_status(), status(1, 1, 3));
    info.remove(&mut index, 0x5000);
    assert_eq!(info.get_status(), status(0, 1, 3));
    info.remove(&mut index, 0x6000);
    assert_eq!(info.get_status(), status(0, 0, 3));
    info.remove(&mut index, 0x2000);
    assert_eq!(info.get_status(), status(0, 0, 2));
    assert_eq!(index.classes(B), Vec::<Vec<PidAddr>>::new());
    assert_eq!(index.classes(A), vec![vec![page(100, 0x1000)]]);
    info.remove(&mut index, 0x9000);
    assert_eq!(info.get_status(), status(0, 0, 2));
}

#[test]
fn pages_that_are_not_present_are_forgotten() {
    let mut index = Uksm::new();
    let mut info = Info::new(100, P);
    let maps = vec![range(0x1000, 0x4000)];
    info.refresh(&mut index, maps.clone(), &vec![vec![seen(A), seen(B), seen(C)]]).unwrap();
    info.refresh(&mut index, maps, &vec![vec![seen(A), None, seen(C)]]).unwrap();
    assert_eq!(at(&info, 0x2000), None);
    assert_eq!(info.get_status(), status(0, 2, 0));
}

#[test]
fn pages_of_areas_that_are_gone_are_forgotten() {
    let mut index = Uksm::new();
    let mut info = Info::new(100, P);
    let maps = vec![range(0x1000, 0x4000), range(0x8000, 0xa000)];
    let samples = vec![vec![seen(A), seen(B), seen(C)], vec![seen(A), seen(A)]];
    info.refresh(&mut index, maps, &samples).unwrap();
    assert_eq!(info.get_status(), status(5, 0, 0));
    // The first area has shrunk and the second is gone.
    info.refresh(&mut index, vec![range(0x2000, 0x3000)], &vec![vec![seen(B)]]).unwrap();
    assert_eq!(at(&info, 0x1000), None);
    assert_eq!(at(&info, 0x2000), Some((Bucket::Old, B)));
    assert_eq!(at(&info, 0x3000), None);
    assert_eq!(at(&info, 0x8000), None);
    assert_eq!(at(&info, 0x9000), None);
    assert_eq!(info.get_status(), status(0, 1, 0));
}

#[test]
fn an_area_without_a_present_page_is_not_kept() {
    let mut index = Uksm::new();
    let mut info = Info::new(100, P);
    // Only the second area is kept: it alone holds a page that is present.
    let maps = vec![range(0x1000, 0x3000), range(0x8000, 0x9000)];
    info.refresh(&mut index, maps, &vec![vec![None, None], vec![seen(A)]]).unwrap();
    // The page 0x8000 lies in a kept area that is gone now: it is forgotten.
    // A page 0x1000 that the tracker came to hold otherwise lies in no kept
    // area: it stays.
    info.update(&mut index, 0x1000, UKSMPagemapEntry { pfn: 0, crc: C, is_thp: false, is_ksm: false });
    info.refresh(&mut index, vec![], &vec![]).unwrap();
    assert_eq!(at(&info, 0x8000), None);
    assert_eq!(at(&info, 0x1000), Some((Bucket::New, C)));
}

#[test]
fn a_missing_sample_ends_the_refresh() {
    let mut index = Uksm::new();
    let mut info = Info::new(100, P);
    let maps = vec![range(0x1000, 0x3000), range(0x8000, 0x9000)];
    info.refresh(&mut index, maps.clone(), &vec![vec![seen(A), seen(B)], vec![seen(C)]]).unwrap();
    // The first area is read, the second is not: the first is taken in,
    // and the tracker keeps the areas it had.
    let r = info.refresh(&mut index, vec![range(0x1000, 0x3000), range(0xa000, 0xb000)], &vec![vec![seen(A), seen(C)]]);
    assert_eq!(r, Err(ErrorKind::KernelIoError));
    assert_eq!(at(&info, 0x1000), Some((Bucket::Old, A)));
    assert_eq!(at(&info, 0x2000), Some((Bucket::New, C)));
    assert_eq!(at(&info, 0x8000), None);
    // The area 0x8000 was still among the kept ones: its pages go again.
    info.update(&mut index, 0x8000, UKSMPagemapEntry { pfn: 0, crc: C, is_thp: false, is_ksm: false });
    info.refresh(&mut index, vec![], &vec![]).unwrap();
    assert_eq!(info.get_status(), status(0, 0, 0));
}

#[test]
fn a_sample_that_does_not_fit_ends_the_refresh() {
    let mut index = Uksm::new();
    let mut info = Info::new(100, P);
    let maps = vec![range(0x1000, 0x3000), range(0x8000, 0x9000)];
    let r = info.refresh(&mut index, maps, &vec![vec![seen(A)], vec![seen(C)]]);
    assert_eq!(r, Err(ErrorKind::PagemapMalformed));
    assert_eq!(info.get_status(), status(0, 0, 0));
    assert!(sample_fits(&range(0x1000, 0x3000), 2, P));
    assert!(!sample_fits(&range(0x1000, 0x3000), 1, P));
    assert!(!sample_fits(&range(0x1000, 0x3000), 3, P));
    assert!(sample_fits(&range(0x3000, 0x1000), 0, P));
    assert!(sample_fits(&range(0x1800, 0x2800), 1, P));
    assert!(!sample_fits(&range(u64::MAX - 1, u64::MAX), 1, 1 << 63));
}

#[test]
fn merge_moves_old_pages_to_merged() {
    let mut index = Uksm::new();
    let mut info = Info::new(100, P);
    let maps = vec![range(0x1000, 0x4000)];
    let samples = vec![vec![seen(A), seen(B), seen(C)]];
    info.refresh(&mut index, maps.clone(), &samples).unwrap();
    info.refresh(&mut index, maps.clone(), &vec![vec![seen(A), seen(B2), seen(C)]]).unwrap();
    assert_eq!(merge(&mut info, &mut index, &|_, _| true), 0);
    assert_eq!(at(&info, 0x1000), Some((Bucket::Merged, A)));
    assert_eq!(at(&info, 0x2000), Some((Bucket::New, B2)));
    assert_eq!(at(&info, 0x3000), Some((Bucket::Merged, C)));
    assert_eq!(index.classes(A), vec![vec![page(100, 0x1000)]]);
    assert_eq!(index.classes(C), vec![vec![page(100, 0x3000)]]);
    assert_eq!(index.len(), 2);
}

#[test]
fn pages_with_one_fingerprint_are_asked_about() {
    let mut index = Uksm::new();
    let mut info = Info::new(100, P);
    let maps = vec![range(0x1000, 0x4000)];
    let samples = vec![vec![seen(A), seen(A), seen(A)]];
    info.refresh(&mut index, maps.clone(), &samples).unwrap();
    info.refresh(&mut index, maps, &samples).unwrap();
    // One question for the second page, one for the third.
    assert_eq!(merge(&mut info, &mut index, &|_, _| true), 2);
    assert_eq!(info.get_status(), status(0, 0, 3));
    assert_eq!(index.classes(A).len(), 1);
    assert_eq!(index.classes(A)[0].len(), 3);
}

#[test]
fn a_pass_that_stops_leaves_the_rest_old() {
    let mut index = Uksm::new();
    let mut info = Info::new(100, P);
    let maps = vec![range(0x1000, 0x4000)];
    let samples = vec![vec![seen(A), seen(A), seen(A)]];
    info.refresh(&mut index, maps.clone(), &samples).unwrap();
    info.refresh(&mut index, maps, &samples).unwrap();
    let mut pass = info.merge_pass();
    // The first page needs no answer; the pass stops at the second.
    let (known, asked) = info.merge(&mut index, &mut pass, None).unwrap();
    assert_eq!(info.get_status(), status(0, 2, 1));
    assert_eq!(at(&info, known.addr), Some((Bucket::Merged, A)));
    assert_eq!(at(&info, asked.addr), Some((Bucket::Old, A)));
    assert_eq!(index.classes(A), vec![vec![known]]);
    assert_eq!(pass.todo.len(), 2);
    assert_eq!(pass.verdicts, Vec::<bool>::new());
}

#[test]
fn unmerge_moves_merged_pages_to_old() {
    let mut index = Uksm::new();
    let mut info = Info::new(100, P);
    let maps = vec![range(0x1000, 0x4000)];
    let samples = vec![vec![seen(A), seen(B), seen(C)]];
    info.refresh(&mut index, maps.clone(), &samples).unwrap();
    info.refresh(&mut index, maps, &samples).unwrap();
    merge(&mut info, &mut index, &|_, _| true);
    assert_eq!(info.get_status(), status(0, 0, 3));
    let mut told = unmerge(&mut info, &mut index);
    told.sort_by_key(|page| page.addr);
    assert_eq!(told, vec![page(100, 0x1000), page(100, 0x2000), page(100, 0x3000)]);
    assert_eq!(info.get_status(), status(0, 3, 0));
    assert_eq!(index.len(), 0);
}

#[test]
fn a_page_that_the_kernel_does_not_release_stays_merged() {
    let mut index = Uksm::new();
    let mut info = Info::new(100, P);
    let maps = vec![range(0x1000, 0x3000)];
    let samples = vec![vec![seen(A), seen(B)]];
    info.refresh(&mut index, maps.clone(), &samples).unwrap();
    info.refresh(&mut index, maps, &samples).unwrap();
    merge(&mut info, &mut index, &|_, _| true);
    let mut pass = info.unmerge_pass();
    let (first, _) = info.unmerge(&mut index, &mut pass, false).unwrap();
    // Asking again without a release asks for the same page.
    assert_eq!(info.unmerge(&mut index, &mut pass, false), Some((first, first)));
    assert_eq!(info.get_status(), status(0, 0, 2));
    let (second, _) = info.unmerge(&mut index, &mut pass, true).unwrap();
    assert_ne!(first, second);
    assert_eq!(info.get_status(), status(0, 1, 1));
    assert_eq!(at(&info, first.addr).unwrap().0, Bucket::Old);
    assert_eq!(at(&info, second.addr).unwrap().0, Bucket::Merged);
    assert_eq!(index.len(), 1);
}

#[test]
fn a_pass_takes_its_pages_from_the_last_one_down() {
    let mut index = Uksm::new();
    let mut info = Info::new(100, P);
    let maps = vec![range(0x1000, 0x4000)];
    let samples = vec![vec![seen(A), seen(A), seen(A)]];
    info.refresh(&mut index, maps.clone(), &samples).unwrap();
    info.refresh(&mut index, maps, &samples).unwrap();
    let mut pass = Pass { todo: vec![0x3000, 0x9000, 0x1000, 0x2000], verdicts: vec![] };
    assert_eq!(
        info.merge(&mut index, &mut pass, None),
        Some((page(100, 0x2000), page(100, 0x1000)))
    );
    assert_eq!(pass.todo, vec![0x3000, 0x9000, 0x1000]);
    assert_eq!(
        info.merge(&mut index, &mut pass, Some(false)),
        Some((page(100, 0x2000), page(100, 0x3000)))
    );
    assert_eq!(pass.todo, vec![0x3000]);
    assert_eq!(
        info.merge(&mut index, &mut pass, Some(false)),
        Some((page(100, 0x1000), page(100, 0x3000)))
    );
    assert_eq!(pass.verdicts, vec![false]);
    assert_eq!(info.merge(&mut index, &mut pass, Some(true)), None);
    assert_eq!(
        index.classes(A),
        vec![vec![page(100, 0x2000)], vec![page(100, 0x1000), page(100, 0x3000)]]
    );
}

#[test]
fn the_buckets_share_no_page() {
    let mut index = Uksm::new();
    let mut info = Info::new(100, P);
    let maps = vec![range(0x1000, 0x6000)];
    let mut total = 0;
    let rounds = [
        vec![seen(A), seen(A), seen(B), None, seen(C)],
        vec![seen(A), seen(B), seen(B), seen(C), seen(C)],
        vec![shared(A), shared(B), None, seen(C), shared(A)],
        vec![shared(A), seen(B), seen(A), seen(C), shared(A)],
    ];
    for (round, sample) in rounds.iter().enumerate() {
        info.refresh(&mut index, maps.clone(), &vec![sample.clone()]).unwrap();
        if round % 2 == 1 {
            merge(&mut info, &mut index, &|_, _| true);
        }
        let status = info.get_status();
        let held = (1..6).filter(|i| info.lookup(i * P).is_some()).count() as u64;
        assert_eq!(status.new_count + status.old_count + status.uksm_count, held);
        total += held;
    }
    assert_eq!(total, 4 + 5 + 4 + 5);
}

#[test]
fn merge_then_unmerge_gives_the_state_back() {
    let mut index = Uksm::new();
    let mut other = Info::new(200, P);
    let mut info = Info::new(100, P);
    let maps = vec![range(0x1000, 0x4000)];
    let samples = vec![vec![seen(A), seen(B), seen(A)]];
    other.refresh(&mut index, maps.clone(), &samples).unwrap();
    other.refresh(&mut index, maps.clone(), &samples).unwrap();
    merge(&mut other, &mut index, &|_, _| false);
    info.refresh(&mut index, maps.clone(), &samples).unwrap();
    info.refresh(&mut index, maps.clone(), &vec![vec![seen(A), seen(B), seen(C)]]).unwrap();
    let classes = (index.classes(A), index.classes(B), index.classes(C));
    merge(&mut info, &mut index, &|known, page| known.addr == page.addr);
    assert_eq!(info.get_status(), status(1, 0, 2));
    assert_ne!(index.classes(A), classes.0);
    unmerge(&mut info, &mut index);
    assert_eq!(at(&info, 0x1000), Some((Bucket::Old, A)));
    assert_eq!(at(&info, 0x2000), Some((Bucket::Old, B)));
    assert_eq!(at(&info, 0x3000), Some((Bucket::New, C)));
    assert_eq!((index.classes(A), index.classes(B), index.classes(C)), classes);
}

#[test]
fn a_third_refresh_changes_nothing() {
    let mut index = Uksm::new();
    let mut info = Info::new(100, P);
    let maps = vec![range(0x1000, 0x4000), range(0x8000, 0xa000)];
    let first = vec![vec![seen(A), seen(B), seen(C)], vec![seen(A), seen(B)]];
    info.refresh(&mut index, maps.clone(), &first).unwrap();
    info.refresh(&mut index, maps.clone(), &first).unwrap();
    merge(&mut info, &mut index, &|_, _| true);
    let samples = vec![vec![shared(A), seen(B2), None], vec![None, None]];
    info.refresh(&mut index, maps.clone(), &samples).unwrap();
    info.refresh(&mut index, maps.clone(), &samples).unwrap();
    let after = (info.get_status(), at(&info, 0x1000), at(&info, 0x2000), index.classes(A));
    assert_eq!(after.0, status(0, 1, 1));
    assert_eq!(after.1, Some((Bucket::Merged, A)));
    assert_eq!(after.2, Some((Bucket::Old, B2)));
    info.refresh(&mut index, maps, &samples).unwrap();
    assert_eq!((info.get_status(), at(&info, 0x1000), at(&info, 0x2000), index.classes(A)), after);
}

#[test]
fn intervals_are_subtracted() {
    let a = vec![range(0x1000, 0x9000)];
    assert_eq!(find_non_overlapping_ranges(&a, &vec![]), a);
    assert_eq!(find_non_overlapping_ranges(&a, &a), vec![]);
    assert_eq!(find_non_overlapping_ranges(&vec![], &a), vec![]);
    assert_eq!(
        find_non_overlapping_ranges(&a, &vec![range(0x3000, 0x5000)]),
        vec![range(0x1000, 0x3000), range(0x5000, 0x9000)]
    );
    assert_eq!(
        find_non_overlapping_ranges(&a, &vec![range(0x0, 0x2000), range(0x8000, 0xf000)]),
        vec![range(0x2000, 0x8000)]
    );
    assert_eq!(find_non_overlapping_ranges(&a, &vec![range(0x0, 0xf000)]), vec![]);
    assert_eq!(
        find_non_overlapping_ranges(&a, &vec![range(0x0, 0x1000), range(0x9000, 0xa000)]),
        a
    );
}

#[test]
fn intervals_to_subtract_need_no_order() {
    let a = vec![range(0x1000, 0x9000), range(0xa000, 0xc000)];
    let b = vec![
        range(0x6000, 0x7000),
        range(0x2000, 0x4000),
        range(0x3000, 0x5000),
        range(0xb000, 0xd000),
        range(0x7000, 0x7000),
    ];
    assert_eq!(
        find_non_overlapping_ranges(&a, &b),
        vec![
            range(0x1000, 0x2000),
            range(0x5000, 0x6000),
            range(0x7000, 0x9000),
            range(0xa000, 0xb000)
        ]
    );
}

#[test]
fn the_page_size_of_this_machine_is_not_zero() {
    assert_ne!(page_size(), Some(0));
    assert_eq!(PageEntry { crc: 7 }.crc, 7);
}

#[test]
fn a_page_size_of_zero_is_not_accepted() {
    assert_eq!(accept_page_size(0), None);
    assert_eq!(accept_page_size(1), Some(1));
    assert_eq!(accept_page_size(4096), Some(4096));
    assert_eq!(accept_page_size(usize::MAX), Some(usize::MAX as u64));
}
