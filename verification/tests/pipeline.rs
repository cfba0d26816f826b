use framemap::compress::{compress, expand, PageRange};
use framemap::index::FrameIndex;
use framemap::maps::{host_page_size, usable_page_size, Mapping, Range};
use framemap::pagemap::Page;
use framemap::parse::parse_lines;
use framemap::process::Process;

const IN_RAM: u64 = 0x8000_0000_0000_0000;

fn parse(line: &str) -> Mapping {
    Mapping::from_line(line.as_bytes()).expect("line should parse")
}

#[test]
fn test_simple() {
    let line = "00200000-00225000 r--p 00000000 00:12 281474977421407                    /init";
    let map = parse(line);

    assert_eq!(
        map,
        Mapping {
            address_range: Range { start: 2097152, end: 2248704 },
            permissions: b"r--p".to_vec(),
            offset: 0,
            device: b"00:12".to_vec(),
            inode: 281474977421407,
            path: Some(b"/init".to_vec()),
        }
    );
}

#[test]
fn test_page_offsets() {
    let offsets = Mapping {
        address_range: Range { start: 0, end: 0x2000 },
        permissions: b"".to_vec(),
        offset: 0,
        device: b"00:00".to_vec(),
        inode: 0,
        path: None,
    }
    .page_offsets(4096)
    .to_vec();

    assert_eq!(offsets, vec![0, 8]);
}

#[test]
fn test_zero() {
    let page = Page(0);
    assert_eq!(page.in_ram(), false);
    assert_eq!(page.in_swap(), false);
    assert_eq!(page.is_file_mapped(), false);
    assert_eq!(page.is_shared_anonymous(), false);
    assert_eq!(page.is_exclusively_mapped(), false);
    assert_eq!(page.is_soft_dirty(), false);
    assert_eq!(page.page_frame_number(), 0);
}

#[test]
fn test_one() {
    let page = Page(1);
    assert_eq!(page.in_ram(), false);
    assert_eq!(page.in_swap(), false);
    assert_eq!(page.is_file_mapped(), false);
    assert_eq!(page.is_shared_anonymous(), false);
    assert_eq!(page.is_exclusively_mapped(), false);
    assert_eq!(page.is_soft_dirty(), false);
    assert_eq!(page.page_frame_number(), 1);
}

#[test]
fn literal_line_parses_to_known_fields() {
    let map = parse("00200000-00225000 r--p 00000000 00:12 281474977421407   /init");
    assert_eq!(map.address_range, Range { start: 0x200000, end: 0x225000 });
    assert_eq!(map.permissions, b"r--p".to_vec());
    assert_eq!(map.offset, 0);
    assert_eq!(map.device, b"00:12".to_vec());
    assert_eq!(map.inode, 281474977421407);
    assert_eq!(map.path(), &Some(b"/init".to_vec()));
}

#[test]
fn anonymous_mapping_has_no_path() {
    let map = parse("7f0000000000-7f0000001000 rw-p 001a0000 fd:01 0");
    assert_eq!(map.path, None);
    assert_eq!(map.offset, 0x1a0000);
    assert_eq!(map.device, b"fd:01".to_vec());
}

#[test]
fn path_with_whitespace_is_kept_and_trimmed() {
    let map = parse("0-1000 rw-p 0 00:00 5   /tmp/a file with spaces  ");
    assert_eq!(map.path, Some(b"/tmp/a file with spaces".to_vec()));
}

#[test]
fn malformed_lines_are_hard_errors() {
    for bad in [
        "",
        "not a mapping line",
        "00200000 r--p 00000000 00:12 42",
        "zz-10 r--p 0 00:12 42",
        "0-10 r--p 0 0012 42",
        "0-10 r--p 0 00:12 notanumber",
        // address overflows 64 bits
        "0-10000000000000000ff r--p 0 00:12 42",
        // inode overflows 64 bits
        "0-10 r--p 0 00:12 99999999999999999999",
    ] {
        let r = Mapping::from_line(bad.as_bytes());
        match r {
            Ok(_) => panic!("line should have been rejected"),
            Err(e) => assert_eq!(e.line, bad.as_bytes().to_vec()),
        }
    }
}

#[test]
fn round_trip_reproduces_fields() {
    for line in [
        "00200000-00225000 r--p 00000000 00:12 281474977421407   /init",
        "7f0000000000-7f0000001000 rw-p 001a0000 fd:01 0",
        "0-1000 rw-p 0 00:00 5   /tmp/a file with spaces",
        "fffffffffffff000-ffffffffffffffff ---s ffffffffffffffff ab:cd 18446744073709551615 [stack]",
    ] {
        let first = parse(line);
        let serialized = first.to_line();
        let again = Mapping::from_line(&serialized).expect("serialized line should parse");
        assert_eq!(first, again);
    }
}

#[test]
fn parse_lines_stops_at_first_bad_line() {
    let lines: Vec<Vec<u8>> = vec![
        b"0-1000 r--p 0 00:12 1 /bin/a".to_vec(),
        b"garbage".to_vec(),
        b"2000-3000 r--p 0 00:12 2 /bin/b".to_vec(),
    ];
    match parse_lines(&lines) {
        Ok(_) => panic!("listing should have been rejected"),
        Err(e) => assert_eq!(e.line, b"garbage".to_vec()),
    }
    let good: Vec<Vec<u8>> = vec![
        b"0-1000 r--p 0 00:12 1 /bin/a".to_vec(),
        b"2000-3000 rw-p 0 00:12 2".to_vec(),
    ];
    let maps = parse_lines(&good).expect("listing should parse");
    assert_eq!(maps.len(), 2);
    assert_eq!(maps[0].inode, 1);
    assert_eq!(maps[1].address_range, Range { start: 0x2000, end: 0x3000 });
}

#[test]
fn page_offsets_formula_and_spacing() {
    let map = Mapping {
        address_range: Range { start: 0x5000, end: 0x9234 },
        permissions: b"r--p".to_vec(),
        offset: 0,
        device: b"00:00".to_vec(),
        inode: 0,
        path: None,
    };
    let page_size: u64 = 4096;
    let offsets = map.page_offsets(page_size).to_vec();
    // starts at (start / page_size) * 8
    assert_eq!(offsets[0], (0x5000 / page_size) * 8);
    // last element is (end / page_size) * 8 - 8
    assert_eq!(*offsets.last().unwrap(), (0x9234 / page_size) * 8 - 8);
    // strictly increasing, spaced by exactly the record size
    for w in offsets.windows(2) {
        assert_eq!(w[1], w[0] + 8);
    }
    // one offset per whole page covered by the range
    assert_eq!(offsets.len() as u64, 0x9234 / page_size - 0x5000 / page_size);
}

#[test]
fn page_offsets_restartable_by_next() {
    let map = Mapping {
        address_range: Range { start: 0, end: 0x3000 },
        permissions: b"r--p".to_vec(),
        offset: 0,
        device: b"00:00".to_vec(),
        inode: 0,
        path: None,
    };
    let mut it = map.page_offsets(0x1000);
    assert_eq!(it.next(), Some(0));
    assert_eq!(it.next(), Some(8));
    assert_eq!(it.next(), Some(16));
    assert_eq!(it.next(), None);
    assert_eq!(it.next(), None);
}

#[test]
fn frame_number_ignores_high_flag_bits() {
    // all flag bits set, frame number in the low 55 bits
    let raw: u64 = IN_RAM | 0x4000_0000_0000_0000 | 0x2000_0000_0000_0000
        | 0x0100_0000_0000_0000 | 0x0080_0000_0000_0000 | 12345;
    let page = Page(raw);
    assert!(page.in_ram());
    assert!(page.in_swap());
    assert!(page.is_file_mapped());
    assert!(page.is_shared_anonymous());
    assert!(page.is_exclusively_mapped());
    assert!(page.is_soft_dirty());
    assert_eq!(page.page_frame_number(), 12345);
}

#[test]
fn decode_reads_little_endian() {
    let bytes = [0x01u8, 0x02, 0x03, 0x04, 0x05, 0x06, 0x07, 0x80];
    let page = Page::decode(&bytes);
    assert_eq!(page.0, 0x8007060504030201);
    assert!(page.in_ram());
    assert_eq!(page.page_frame_number(), 0x0007060504030201);
}

#[test]
fn decode_byte_order_is_configurable() {
    let bytes = [0x80u8, 0x07, 0x06, 0x05, 0x04, 0x03, 0x02, 0x01];
    let be = Page::decode_with(&bytes, true);
    assert_eq!(be.0, 0x8007060504030201);
    assert!(be.in_ram());
    let le = Page::decode_with(&bytes, false);
    assert_eq!(le.0, 0x0102030405060780);
    assert!(!le.in_ram());
    assert_eq!(le.0, Page::decode(&bytes).0);
}

#[test]
fn usable_page_size_gates_the_kernel_report() {
    assert_eq!(usable_page_size(None), None);
    assert_eq!(usable_page_size(Some(-1)), None);
    assert_eq!(usable_page_size(Some(0)), None);
    assert_eq!(usable_page_size(Some(7)), None);
    assert_eq!(usable_page_size(Some(8)), Some(8));
    assert_eq!(usable_page_size(Some(4096)), Some(4096));
    assert_eq!(usable_page_size(Some(16384)), Some(16384));
}

#[test]
fn only_resident_pages_are_indexed() {
    let p = Process::new(7);
    let pages = vec![
        Page(IN_RAM | 10),
        Page(20),          // not resident: dropped
        Page(IN_RAM | 11),
    ];
    let mut index = FrameIndex::new();
    index.add_pages(p, &pages);
    assert_eq!(index.len(), 2);
    assert_eq!(index.entries[0].frame, 10);
    assert_eq!(index.entries[1].frame, 11);
    assert_eq!(index.entries[0].owners, vec![p]);
}

#[test]
fn merge_is_commutative_and_associative() {
    let (p1, p2, p3) = (Process::new(1), Process::new(2), Process::new(3));
    let mut a = FrameIndex::new();
    a.add_pages(p1, &vec![Page(IN_RAM | 5), Page(IN_RAM | 9)]);
    let mut b = FrameIndex::new();
    b.add_pages(p2, &vec![Page(IN_RAM | 9), Page(IN_RAM | 6)]);
    let mut c = FrameIndex::new();
    c.add_pages(p3, &vec![Page(IN_RAM | 5), Page(IN_RAM | 6)]);

    assert_eq!(a.merge(&b), b.merge(&a));
    assert_eq!(a.merge(&b).merge(&c), a.merge(&b.merge(&c)));

    let merged = a.merge(&b).merge(&c);
    assert_eq!(merged.len(), 3);
    assert_eq!(merged.entries[0].frame, 5);
    assert_eq!(merged.entries[0].owners, vec![p1, p3]);
    assert_eq!(merged.entries[1].frame, 6);
    assert_eq!(merged.entries[1].owners, vec![p2, p3]);
    assert_eq!(merged.entries[2].frame, 9);
    assert_eq!(merged.entries[2].owners, vec![p1, p2]);
}

#[test]
fn merge_deduplicates_owners() {
    let p = Process::new(4);
    let mut a = FrameIndex::new();
    a.add_pages(p, &vec![Page(IN_RAM | 3)]);
    let merged = a.merge(&a);
    assert_eq!(merged.len(), 1);
    assert_eq!(merged.entries[0].owners, vec![p]);
}

#[test]
fn compress_splits_on_owner_change_and_flushes_tail() {
    let (p1, p2) = (Process::new(1), Process::new(2));
    let mut index = FrameIndex::new();
    // frames 10,11 owned by p1; frame 12 owned by p1 and p2; frame 14 by p2
    index.record(10, p1);
    index.record(11, p1);
    index.record(12, p1);
    index.record(12, p2);
    index.record(14, p2);
    let report = compress(&index);
    assert_eq!(
        report,
        vec![
            PageRange { from: 10, to: 12, owners: vec![p1] },
            PageRange { from: 12, to: 13, owners: vec![p1, p2] },
            PageRange { from: 14, to: 15, owners: vec![p2] },
        ]
    );
}

#[test]
fn compress_empty_index_is_empty() {
    let index = FrameIndex::new();
    assert_eq!(compress(&index), vec![]);
}

#[test]
fn compress_covers_every_frame_once_and_reaches_the_top() {
    // pseudo-random fixture from a small linear congruential generator
    let mut seed: u64 = 0x2545F4914F6CDD1D;
    let mut index = FrameIndex::new();
    let mut frames: Vec<(u64, u64)> = Vec::new();
    for _ in 0..200 {
        seed = seed.wrapping_mul(6364136223846793005).wrapping_add(1442695040888963407);
        let frame = (seed >> 16) % 64;
        let pid = 1 + (seed >> 8) % 3;
        index.record(frame, Process::new(pid));
        frames.push((frame, pid));
    }
    let report = compress(&index);
    // every indexed frame appears in exactly one output range
    for (frame, _) in &frames {
        let covering: Vec<&PageRange> = report
            .iter()
            .filter(|r| r.from <= *frame && *frame < r.to)
            .collect();
        assert_eq!(covering.len(), 1);
    }
    // ranges ascend, never merge different owner sets, and the last range
    // reaches the greatest indexed frame
    for pair in report.windows(2) {
        assert!(pair[0].to <= pair[1].from);
        if pair[0].to == pair[1].from {
            assert_ne!(pair[0].owners, pair[1].owners);
        }
    }
    let greatest = frames.iter().map(|(f, _)| *f).max().unwrap();
    assert_eq!(report.last().unwrap().to, greatest + 1);
    // a range's owner set is exactly the owner set of each frame in it
    for r in &report {
        for f in r.from..r.to {
            let owners: Vec<u64> = {
                let mut pids: Vec<u64> = frames
                    .iter()
                    .filter(|(fr, _)| *fr == f)
                    .map(|(_, pid)| *pid)
                    .collect();
                pids.sort();
                pids.dedup();
                pids
            };
            let range_pids: Vec<u64> = r.owners.iter().map(|p| p.pid).collect();
            assert_eq!(range_pids, owners);
        }
    }
}

#[test]
fn compress_expand_compress_is_identical() {
    let (p1, p2) = (Process::new(1), Process::new(2));
    let mut index = FrameIndex::new();
    index.record(1, p1);
    index.record(2, p1);
    index.record(3, p2);
    index.record(9, p1);
    index.record(9, p2);
    index.record(10, p1);
    let report = compress(&index);
    let reexpanded = expand(&report);
    assert_eq!(reexpanded, index);
    assert_eq!(compress(&reexpanded), report);
}

#[test]
fn host_page_size_is_queried_not_hardcoded() {
    // the host must report a page size able to hold at least one record
    if let Some(ps) = host_page_size() {
        assert!(ps >= 8);
        // page sizes on supported hosts are powers of two
        assert_eq!(ps & (ps - 1), 0);
    } else {
        panic!("host reports no page size");
    }
}

#[test]
fn process_identity_is_the_pid() {
    assert_eq!(Process::new(42), Process::new(42));
    assert_ne!(Process::new(42), Process::new(43));
}
