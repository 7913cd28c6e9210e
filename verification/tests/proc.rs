use uksmd::error::ErrorKind;
use uksmd::proc::{
    clip, feed_line, find_word, parse_header, parse_task_smaps, read_amount, MapRange,
    ParseSmapsRec,
};
use uksmd::task::TaskInfo;

fn area(header: &str, anonymous: u64, shared_hugetlb: u64, private_hugetlb: u64) -> String {
    format!(
        "{header}\nSize:                132 kB\nRss:                  12 kB\nAnonymous:      {anonymous:>8} kB\nShared_Hugetlb: {shared_hugetlb:>8} kB\nPrivate_Hugetlb:{private_hugetlb:>8} kB\nVmFlags: rd wr mr mw me ac\n"
    )
}

fn ranges(text: &str, addr: Option<(u64, u64)>) -> Result<Vec<MapRange>, ErrorKind> {
    parse_task_smaps(text.as_bytes(), &TaskInfo::new(100, addr))
}

#[test]
fn an_area_with_anonymous_memory_is_emitted() {
    let text = area("00400000-00452000 r-xp 00000000 08:02 173521 /usr/bin/dbus", 4, 0, 0);
    assert_eq!(ranges(&text, None), Ok(vec![MapRange { start: 0x400000, end: 0x452000 }]));
}

#[test]
fn an_area_without_anonymous_memory_is_skipped() {
    let text = area("00400000-00452000 r-xp 00000000 08:02 173521 /usr/bin/dbus", 0, 0, 0)
        + &area("7f0000001000-7f0000004000 rw-p 00000000 00:00 0 ", 8, 0, 0);
    assert_eq!(
        ranges(&text, None),
        Ok(vec![MapRange { start: 0x7f0000001000, end: 0x7f0000004000 }])
    );
}

#[test]
fn an_area_on_huge_pages_is_skipped() {
    let text = area("1000-2000 rw-p 00000000 00:00 0 ", 4, 2048, 0)
        + &area("3000-4000 rw-p 00000000 00:00 0 ", 4, 0, 2048)
        + &area("5000-6000 rw-p 00000000 00:00 0 ", 4, 0, 0);
    assert_eq!(ranges(&text, None), Ok(vec![MapRange { start: 0x5000, end: 0x6000 }]));
}

#[test]
fn areas_come_out_in_the_order_of_the_text() {
    let text = area("5000-6000 rw-p 00000000 00:00 0 ", 4, 0, 0)
        + &area("1000-2000 rw-p 00000000 00:00 0 ", 4, 0, 0);
    assert_eq!(
        ranges(&text, None),
        Ok(vec![MapRange { start: 0x5000, end: 0x6000 }, MapRange { start: 0x1000, end: 0x2000 }])
    );
}

#[test]
fn an_empty_or_reversed_area_is_skipped() {
    let text = area("2000-2000 rw-p 00000000 00:00 0 ", 4, 0, 0)
        + &area("3000-1000 rw-p 00000000 00:00 0 ", 4, 0, 0);
    assert_eq!(ranges(&text, None), Ok(vec![]));
}

#[test]
fn the_window_clips_the_areas() {
    let text = area("1000-3000 rw-p 00000000 00:00 0 ", 4, 0, 0)
        + &area("4000-8000 rw-p 00000000 00:00 0 ", 4, 0, 0)
        + &area("9000-a000 rw-p 00000000 00:00 0 ", 4, 0, 0)
        + &area("b000-c000 rw-p 00000000 00:00 0 ", 4, 0, 0);
    assert_eq!(
        ranges(&text, Some((0x2000, 0x9000))),
        Ok(vec![MapRange { start: 0x2000, end: 0x3000 }, MapRange { start: 0x4000, end: 0x8000 }])
    );
    assert_eq!(
        ranges(&text, Some((0x5000, 0x6000))),
        Ok(vec![MapRange { start: 0x5000, end: 0x6000 }])
    );
    assert_eq!(ranges(&text, Some((0xd000, 0xe000))), Ok(vec![]));
}

#[test]
fn a_window_that_holds_nothing_leaves_no_area() {
    let text = area("1000-8000 rw-p 00000000 00:00 0 ", 4, 0, 0);
    assert_eq!(ranges(&text, Some((0x5000, 0x5000))), Ok(vec![]));
    assert_eq!(ranges(&text, Some((0x6000, 0x3000))), Ok(vec![]));
}

#[test]
fn a_bound_that_does_not_fit_is_an_error() {
    let text = area("10000000000000000-20000000000000000 rw-p 00000000 00:00 0 ", 4, 0, 0);
    assert_eq!(ranges(&text, None), Err(ErrorKind::PagemapMalformed));
    let text = area("1000-2000 rw-p 00000000 00:00 0 ", 4, 0, 0)
        + &area("1000-123456789abcdef01 rw-p 00000000 00:00 0 ", 4, 0, 0);
    assert_eq!(ranges(&text, None), Err(ErrorKind::PagemapMalformed));
}

#[test]
fn the_last_area_needs_no_line_feed() {
    assert_eq!(
        ranges("1000-2000 rw-p\nAnonymous: 4 kB", None),
        Ok(vec![MapRange { start: 0x1000, end: 0x2000 }])
    );
    assert_eq!(ranges("", None), Ok(vec![]));
    assert_eq!(ranges("\n\n", None), Ok(vec![]));
}

#[test]
fn carriage_returns_before_line_feeds_are_dropped() {
    assert_eq!(
        ranges("1000-2000 rw-p\r\nAnonymous: 4 kB\r\n", None),
        Ok(vec![MapRange { start: 0x1000, end: 0x2000 }])
    );
}

#[test]
fn lines_before_the_first_header_are_not_read() {
    assert_eq!(ranges("Anonymous: 4 kB\n1000-2000 rw-p\n", None), Ok(vec![]));
}

#[test]
fn a_later_amount_replaces_an_earlier_one() {
    assert_eq!(ranges("1000-2000 rw-p\nAnonymous: 4 kB\nAnonymous: 0 kB\n", None), Ok(vec![]));
    assert_eq!(
        ranges("1000-2000 rw-p\nAnonymous: 0 kB\nAnonymous: 4 kB\n", None),
        Ok(vec![MapRange { start: 0x1000, end: 0x2000 }])
    );
}

#[test]
fn a_field_with_fewer_than_three_words_is_not_read() {
    assert_eq!(ranges("1000-2000 rw-p\nAnonymous: 4\n", None), Ok(vec![]));
    assert_eq!(
        ranges("1000-2000 rw-p\nAnonymous: 4 kB\nShared_Hugetlb: 8\n", None),
        Ok(vec![MapRange { start: 0x1000, end: 0x2000 }])
    );
}

#[test]
fn an_amount_that_is_no_number_counts_as_zero() {
    assert_eq!(ranges("1000-2000 rw-p\nAnonymous: many kB\n", None), Ok(vec![]));
    assert_eq!(
        ranges("1000-2000 rw-p\nAnonymous: 4 kB\nPrivate_Hugetlb: many kB\n", None),
        Ok(vec![MapRange { start: 0x1000, end: 0x2000 }])
    );
    assert_eq!(
        ranges("1000-2000 rw-p\nAnonymous: +4 kB\n", None),
        Ok(vec![MapRange { start: 0x1000, end: 0x2000 }])
    );
}

#[test]
fn after_huge_pages_the_area_reads_no_more_fields() {
    assert_eq!(
        ranges("1000-2000 rw-p\nShared_Hugetlb: 8 kB\nAnonymous: 4 kB\n", None),
        Ok(vec![])
    );
}

#[test]
fn parse_header_splits_the_two_numbers() {
    let line = "7f00-8000 rw-p 00000000 00:00 0".as_bytes();
    assert_eq!(parse_header(line), Some(("7f00".as_bytes(), "8000".as_bytes())));
    assert_eq!(parse_header("7f00-8000".as_bytes()), None);
    assert_eq!(parse_header("7F00-8000 rw-p".as_bytes()), None);
    assert_eq!(parse_header("-8000 rw-p".as_bytes()), None);
    assert_eq!(parse_header("7f00- rw-p".as_bytes()), None);
    assert_eq!(parse_header(" 7f00-8000 rw-p".as_bytes()), None);
    assert_eq!(parse_header("Anonymous: 4 kB".as_bytes()), None);
    assert_eq!(parse_header("".as_bytes()), None);
}

#[test]
fn read_amount_takes_the_second_word() {
    assert_eq!(read_amount("Anonymous:           132 kB".as_bytes()), Some(132));
    assert_eq!(read_amount("Anonymous:\t7\tkB".as_bytes()), Some(7));
    assert_eq!(read_amount("Anonymous: 132".as_bytes()), None);
    assert_eq!(read_amount("Anonymous: x kB".as_bytes()), Some(0));
    assert_eq!(read_amount("Anonymous: 99999999999999999999 kB".as_bytes()), Some(0));
    assert_eq!(read_amount("".as_bytes()), None);
    assert_eq!(find_word("  ab  cd".as_bytes(), 0), (2, 4));
    assert_eq!(find_word("  ab  cd".as_bytes(), 4), (6, 8));
    assert_eq!(find_word("  ab  cd".as_bytes(), 8), (8, 8));
}

#[test]
fn clip_intersects_with_the_window() {
    let none = ParseSmapsRec::new();
    assert_eq!(clip(0x1000, 0x3000, None), ParseSmapsRec { start: 0x1000, end: 0x3000, anon_size: 0 });
    assert_eq!(
        clip(0x1000, 0x3000, Some((0x2000, 0x9000))),
        ParseSmapsRec { start: 0x2000, end: 0x3000, anon_size: 0 }
    );
    assert_eq!(
        clip(0x1000, 0x3000, Some((0x0, 0x2000))),
        ParseSmapsRec { start: 0x1000, end: 0x2000, anon_size: 0 }
    );
    assert_eq!(clip(0x1000, 0x3000, Some((0x3000, 0x9000))), none);
    assert_eq!(clip(0x1000, 0x3000, Some((0x0, 0x1000))), none);
    assert_eq!(clip(0x3000, 0x1000, None), none);
}

#[test]
fn the_record_knows_when_it_holds_an_area() {
    let mut rec = ParseSmapsRec::new();
    assert_eq!(rec, ParseSmapsRec { start: 0, end: 0, anon_size: 0 });
    assert!(!rec.addr_ok());
    assert!(!rec.is_valid());
    rec.start = 0x1000;
    rec.end = 0x2000;
    assert!(rec.addr_ok());
    assert!(!rec.is_valid());
    rec.anon_size = 4;
    assert!(rec.is_valid());
    assert_eq!(rec.to_map_range(), MapRange { start: 0x1000, end: 0x2000 });
    rec.invalid();
    assert_eq!(rec, ParseSmapsRec::new());
}

#[test]
fn feed_line_emits_the_area_before_a_header() {
    let mut rec = ParseSmapsRec { start: 0x1000, end: 0x2000, anon_size: 4 };
    let mut out = Vec::new();
    assert_eq!(feed_line(&mut rec, &mut out, "3000-4000 rw-p".as_bytes(), None), Ok(()));
    assert_eq!(out, vec![MapRange { start: 0x1000, end: 0x2000 }]);
    assert_eq!(rec, ParseSmapsRec { start: 0x3000, end: 0x4000, anon_size: 0 });
    assert_eq!(feed_line(&mut rec, &mut out, "Anonymous: 12 kB".as_bytes(), None), Ok(()));
    assert_eq!(rec, ParseSmapsRec { start: 0x3000, end: 0x4000, anon_size: 12 });
    assert_eq!(feed_line(&mut rec, &mut out, "Private_Hugetlb: 1 kB".as_bytes(), None), Ok(()));
    assert_eq!(rec, ParseSmapsRec::new());
    assert_eq!(out.len(), 1);
}
