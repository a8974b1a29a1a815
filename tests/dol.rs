use ferrox::error::FerroxError;
use ferrox::format::dol::DolBinary;
use ferrox::format::{Permissions, Segment};

fn header(slots: &[(usize, u32, u32, u32)], bss_address: u32, bss_size: u32) -> Vec<u8> {
    let mut offsets = [0u32; 18];
    let mut addresses = [0u32; 18];
    let mut sizes = [0u32; 18];
    for &(n, offset, address, size) in slots {
        offsets[n] = offset;
        addresses[n] = address;
        sizes[n] = size;
    }
    let mut out = Vec::new();
    for w in offsets.iter().chain(addresses.iter()).chain(sizes.iter()) {
        out.extend_from_slice(&w.to_be_bytes());
    }
    out.extend_from_slice(&bss_address.to_be_bytes());
    out.extend_from_slice(&bss_size.to_be_bytes());
    // entry point and padding of a full header
    out.resize(0x100, 0);
    out
}

fn rx() -> Permissions {
    Permissions { read: true, write: false, execute: true, uninitialized: false }
}

fn rw() -> Permissions {
    Permissions { read: true, write: true, execute: false, uninitialized: false }
}

fn rwu() -> Permissions {
    Permissions { read: true, write: true, execute: false, uninitialized: true }
}

fn triple(s: &Segment<u32>) -> (u32, u32, u32, Permissions) {
    (s.address, s.size, s.offset, s.permissions)
}

#[test]
fn empty_header_gives_no_segments() {
    let segs = DolBinary::segments(&header(&[], 0, 0)).unwrap();
    assert!(segs.is_empty());
}

#[test]
fn empty_sections_with_addresses_give_no_segments() {
    let data = header(&[(0, 0x100, 0x8000_3100, 0), (9, 0x200, 0x8000_4000, 0)], 0x8000_5000, 0);
    assert!(DolBinary::segments(&data).unwrap().is_empty());
}

#[test]
fn truncated_header_fails() {
    let data = header(&[(0, 0x100, 0x8000_3100, 0x40)], 0x8000_3140, 0x10C);
    for len in [0usize, 4, 100, 220, 223] {
        let r = DolBinary::segments(&data[..len]);
        assert!(matches!(r, Err(FerroxError::DataError { .. })), "length {len}");
    }
}

#[test]
fn exact_header_length_is_enough() {
    let data = header(&[(0, 0x100, 0x8000_3100, 0x40)], 0, 0);
    let segs = DolBinary::segments(&data[..224]).unwrap();
    assert_eq!(segs.len(), 1);
}

#[test]
fn code_then_uncovered_bss() {
    let data = header(&[(0, 0x100, 0x8000_3100, 0x40)], 0x8000_3140, 0x10C);
    let segs = DolBinary::segments(&data).unwrap();
    let got: Vec<_> = segs.iter().map(triple).collect();
    assert_eq!(got, vec![(0x8000_3100, 0x40, 0x100, rx()), (0x8000_3140, 0x10C, 0, rwu())]);
}

#[test]
fn bss_minus_overlapping_data() {
    let data = header(
        &[(0, 0x100, 0x8000_3100, 0x40), (7, 0x140, 0x8000_3140, 0x0C)],
        0x8000_3140,
        0x10C,
    );
    let segs = DolBinary::segments(&data).unwrap();
    let got: Vec<_> = segs.iter().map(triple).collect();
    assert_eq!(
        got,
        vec![
            (0x8000_3100, 0x40, 0x100, rx()),
            (0x8000_3140, 0x0C, 0x140, rw()),
            (0x8000_314C, 0x100, 0, rwu()),
        ]
    );
}

#[test]
fn bss_equal_to_a_segment_adds_nothing() {
    let data = header(&[(8, 0x300, 0x8000_6000, 0x80)], 0x8000_6000, 0x80);
    let segs = DolBinary::segments(&data).unwrap();
    let got: Vec<_> = segs.iter().map(triple).collect();
    assert_eq!(got, vec![(0x8000_6000, 0x80, 0x300, rw())]);
}

#[test]
fn bss_split_by_a_segment() {
    let data = header(&[(7, 0x300, 0x1100, 0x100)], 0x1000, 0x400);
    let segs = DolBinary::segments(&data).unwrap();
    let got: Vec<_> = segs.iter().map(triple).collect();
    assert_eq!(
        got,
        vec![(0x1000, 0x100, 0, rwu()), (0x1100, 0x100, 0x300, rw()), (0x1200, 0x200, 0, rwu())]
    );
}

#[test]
fn bss_alternating_covered_and_uncovered() {
    let data = header(&[(7, 0x300, 0x1100, 0x100), (8, 0x400, 0x1300, 0x100)], 0x1000, 0x500);
    let segs = DolBinary::segments(&data).unwrap();
    let got: Vec<_> = segs.iter().map(triple).collect();
    assert_eq!(
        got,
        vec![
            (0x1000, 0x100, 0, rwu()),
            (0x1100, 0x100, 0x300, rw()),
            (0x1200, 0x100, 0, rwu()),
            (0x1300, 0x100, 0x400, rw()),
            (0x1400, 0x100, 0, rwu()),
        ]
    );
}

#[test]
fn adjacent_segments_leave_no_gap_between_them() {
    let data = header(&[(7, 0x300, 0x1000, 0x100), (8, 0x400, 0x1100, 0x100)], 0x1000, 0x300);
    let segs = DolBinary::segments(&data).unwrap();
    let got: Vec<_> = segs.iter().map(triple).collect();
    assert_eq!(
        got,
        vec![(0x1000, 0x100, 0x300, rw()), (0x1100, 0x100, 0x400, rw()), (0x1200, 0x100, 0, rwu())]
    );
}

#[test]
fn bss_size_zero_adds_nothing() {
    let data = header(&[(0, 0x100, 0x2000, 0x10)], 0x1000, 0);
    let segs = DolBinary::segments(&data).unwrap();
    assert_eq!(segs.len(), 1);
    assert!(!segs[0].permissions.uninitialized);
}

#[test]
fn segments_are_sorted_by_address() {
    let data = header(
        &[(0, 0x100, 0x9000, 0x10), (1, 0x200, 0x3000, 0x10), (10, 0x300, 0x5000, 0x10)],
        0,
        0,
    );
    let segs = DolBinary::segments(&data).unwrap();
    let got: Vec<_> = segs.iter().map(triple).collect();
    assert_eq!(
        got,
        vec![(0x3000, 0x10, 0x200, rx()), (0x5000, 0x10, 0x300, rw()), (0x9000, 0x10, 0x100, rx())]
    );
}

#[test]
fn bss_at_the_top_of_the_address_space_saturates() {
    let data = header(&[], 0xFFFF_FF00, 0x200);
    let segs = DolBinary::segments(&data).unwrap();
    let got: Vec<_> = segs.iter().map(triple).collect();
    assert_eq!(got, vec![(0xFFFF_FF00, 0xFF, 0, rwu())]);
}

#[test]
fn words_are_read_big_endian() {
    let data = header(&[(0, 0x0102_0304, 0x1122_3344, 0x0000_0102)], 0, 0);
    let segs = DolBinary::segments(&data).unwrap();
    assert_eq!(triple(&segs[0]), (0x1122_3344, 0x0102, 0x0102_0304, rx()));
}

#[test]
fn permission_combinations() {
    assert_eq!(Permissions::code().bits(), 0b0101);
    assert_eq!(Permissions::data().bits(), 0b0011);
    assert_eq!(Permissions::bss().bits(), 0b1011);
    assert_eq!(Permissions::code().union(Permissions::data()).bits(), 0b0111);
    assert!(Permissions::bss().contains(Permissions::data()));
    assert!(!Permissions::data().contains(Permissions::bss()));
}

#[test]
fn sections_sharing_a_start_are_both_counted() {
    let data = header(&[(7, 0x300, 0x10, 0x10), (8, 0x400, 0x10, 0x20)], 0x10, 0x30);
    let segs = DolBinary::segments(&data).unwrap();
    let gaps: Vec<_> = segs.iter().filter(|s| s.permissions.uninitialized).map(triple).collect();
    assert_eq!(gaps, vec![(0x30, 0x10, 0, rwu())]);
    assert_eq!(segs.len(), 3);
}

#[test]
fn sections_sharing_an_end_are_both_counted() {
    let data = header(&[(7, 0x300, 0x10, 0x20), (8, 0x400, 0x20, 0x10)], 0x10, 0x30);
    let segs = DolBinary::segments(&data).unwrap();
    let gaps: Vec<_> = segs.iter().filter(|s| s.permissions.uninitialized).map(triple).collect();
    assert_eq!(gaps, vec![(0x30, 0x10, 0, rwu())]);
    assert_eq!(segs.len(), 3);
}

#[test]
fn identical_sections_leave_the_rest_of_bss_uncovered() {
    let data = header(&[(7, 0x300, 0x100, 0x40), (8, 0x400, 0x100, 0x40)], 0xC0, 0x100);
    let segs = DolBinary::segments(&data).unwrap();
    let gaps: Vec<_> = segs.iter().filter(|s| s.permissions.uninitialized).map(triple).collect();
    assert_eq!(gaps, vec![(0xC0, 0x40, 0, rwu()), (0x140, 0x80, 0, rwu())]);
}

#[test]
fn nested_section_inside_another_adds_nothing_within_it() {
    let data = header(&[(7, 0x300, 0x1000, 0x100), (8, 0x400, 0x1040, 0x20)], 0x1000, 0x180);
    let segs = DolBinary::segments(&data).unwrap();
    let gaps: Vec<_> = segs.iter().filter(|s| s.permissions.uninitialized).map(triple).collect();
    assert_eq!(gaps, vec![(0x1100, 0x80, 0, rwu())]);
}
