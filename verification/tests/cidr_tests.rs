use cidr_cli::{CidrError, Ipv4Cidr, Ipv4CidrList};

fn addr_of(s: &str) -> u32 {
    Ipv4Cidr::from_str(s).unwrap().first_ip()
}

#[test]
fn block_parse_tests() {
    assert_eq!("0.0.0.0/0", Ipv4Cidr::new(0, 0).unwrap().to_string());
    assert_eq!(
        "255.255.255.255/32",
        Ipv4Cidr::new(u32::MAX, 32).unwrap().to_string()
    );
    assert_eq!(
        "127.0.0.0/8",
        Ipv4Cidr::new(127 << 24, 8).unwrap().to_string()
    );
}

#[test]
fn block_list_tests() {
    let mut list = Ipv4CidrList::new();
    list.insert(Ipv4Cidr::from_str("0.0.0.0/1").unwrap());
    list.insert(Ipv4Cidr::from_str("128.0.0.0/1").unwrap());
    assert_eq!(1, list.len());

    let mut list = Ipv4CidrList::new();
    list.insert(Ipv4Cidr::from_str("0.0.0.0/1").unwrap());
    list.insert(Ipv4Cidr::from_str("128.0.0.0/2").unwrap());
    list.insert(Ipv4Cidr::from_str("192.0.0.0/2").unwrap());
    assert_eq!(1, list.len());

    let mut list = Ipv4CidrList::new();
    list.insert(Ipv4Cidr::from_str("4.0.0.0/8").unwrap());
    list.insert(Ipv4Cidr::from_str("5.61.0.0/16").unwrap());
    list.insert(Ipv4Cidr::from_str("6.0.0.0/7").unwrap());
    assert_eq!(3, list.len());
}

#[test]
fn range_parse_tests() {
    let from = addr_of("1.0.0.0");
    let to = addr_of("1.0.0.255");
    let list = Ipv4CidrList::from_range(from, to);
    assert_eq!("1.0.0.0/24", list.to_string().trim());

    let from = addr_of("0.0.0.0");
    let to = addr_of("255.255.255.255");
    let list = Ipv4CidrList::from_range(from, to);
    assert_eq!("0.0.0.0/0", list.to_string().trim());
}

#[test]
fn remove_cidr_tests() {
    let from = addr_of("0.0.0.0");
    let to = addr_of("255.255.255.255");
    let rem = Ipv4Cidr::from_str("127.0.0.0/8").unwrap();
    let mut list = Ipv4CidrList::from_range(from, to);
    list.remove(&rem);
}

#[test]
fn convert_round_trip() {
    for &(addr, mask) in [
        (0u32, 0u8),
        (0, 32),
        (u32::MAX, 32),
        (u32::MAX, 7),
        (0x01020304, 16),
        (0x7F000000, 8),
        (0xC0A80101, 24),
        (0xDEADBEEF, 13),
        (0x80000000, 1),
    ]
    .iter()
    {
        let b = Ipv4Cidr::new(addr, mask).unwrap();
        let back = Ipv4Cidr::from_str(b.to_string().as_str()).unwrap();
        assert_eq!(b, back);
    }
}

#[test]
fn parse_accepts_and_normalizes() {
    let b = Ipv4Cidr::from_str("1.2.3.4/8").unwrap();
    assert_eq!("1.0.0.0/8", b.to_string());
    assert_eq!(8, b.mask());
    // A missing mask means a single host.
    let h = Ipv4Cidr::from_str("10.20.30.40").unwrap();
    assert_eq!("10.20.30.40/32", h.to_string());
    assert_eq!(32, h.mask());
    // Two-digit octets may carry a leading zero.
    assert!(Ipv4Cidr::from_str("00.1.2.3").is_ok());
}

#[test]
fn parse_rejects_bad_shapes() {
    for s in [
        "",
        "1.2.3",
        "1.2.3.4.5",
        "256.0.0.0",
        "007.0.0.1",
        "1.2.3.4/33",
        "1.2.3.4/05",
        "1.2.3.4/",
        "1.2.3.4x",
        "1.2.3.4/24x",
        "/8",
        "1..2.3.4",
        "a.b.c.d",
        " 1.2.3.4",
    ]
    .iter()
    {
        assert_eq!(Err(CidrError::ParseError), Ipv4Cidr::from_str(s));
    }
}

#[test]
fn invalid_mask_is_refused() {
    assert_eq!(Err(CidrError::InvalidMask), Ipv4Cidr::new(0, 33));
    assert_eq!(Err(CidrError::InvalidMask), Ipv4Cidr::new(u32::MAX, 255));
}

#[test]
fn check_contains_ip() {
    for &(ip, mask) in [
        (0u32, 0u8),
        (0x01020304, 32),
        (0xFFFFFFFF, 1),
        (0x7F000001, 8),
        (0xC0A80101, 24),
    ]
    .iter()
    {
        assert!(Ipv4Cidr::new(ip, mask).unwrap().contains_ip(ip));
    }
    let b = Ipv4Cidr::from_str("10.0.0.0/8").unwrap();
    assert!(b.contains_ip(addr_of("10.255.0.1")));
    assert!(!b.contains_ip(addr_of("11.0.0.0")));
}

#[test]
fn check_contains_cidr() {
    for &(ip, mask) in [(0u32, 0u8), (0x01020304, 13), (0xFFFFFFFF, 31)].iter() {
        let a0 = Ipv4Cidr::new(ip, mask).unwrap();
        let a1 = Ipv4Cidr::new(ip, mask + 1).unwrap();
        assert!(a0.contains_cidr(&a0));
        assert!(a0.contains_cidr(&a1));
        assert!(!a1.contains_cidr(&a0));
    }
}

#[test]
fn check_to_range() {
    for &(ip, mask) in [
        (0u32, 0u8),
        (0x01020304, 15),
        (0xFFFFFFFF, 32),
        (0x80000000, 1),
    ]
    .iter()
    {
        let cidr = Ipv4Cidr::new(ip, mask).unwrap();
        let (from, to) = cidr.to_range();
        assert!(from <= to);
        if mask == 0 {
            assert_eq!((0, u32::MAX), (from, to));
        } else {
            let count = to - from + 1;
            assert_eq!(1, count >> (32 - mask));
            assert_eq!(1, count.count_ones());
        }
        assert_eq!(from, cidr.first_ip());
        assert_eq!(to, cidr.last_ip());
    }
}

#[test]
fn check_cidr_list_collapses() {
    // All mask lengths of one base address collapse to a single member.
    let ip = 0x12345678u32;
    let mut list = Ipv4CidrList::new();
    for j in 1..=32u8 {
        list.insert(Ipv4Cidr::new(ip, j).unwrap());
    }
    assert_eq!(1, list.len());

    // With the zero mask included the one member is the universal block.
    let mut list = Ipv4CidrList::new();
    for j in 0..=32u8 {
        list.insert(Ipv4Cidr::new(ip, j).unwrap());
    }
    assert_eq!(1, list.len());
    assert_eq!("0.0.0.0/0", list.to_string().trim());
}

#[test]
fn check_cidr_list_range_export() {
    for &(from, to) in [
        (0u32, u32::MAX),
        (0, 0),
        (1, 0x0100FFFE),
        (0x01000000, 0x010000FF),
        (0xFFFFFFF0, 0xFFFFFFFF),
        (12345, 99999999),
    ]
    .iter()
    {
        let list = Ipv4CidrList::from_range(from, to);
        assert_eq!(vec![(from, to)], list.to_range());
    }
    // An empty range gives an empty collection.
    assert_eq!(0, Ipv4CidrList::from_range(7, 3).len());
}

#[test]
fn check_cidr_list_remove_inverse() {
    let cases = [
        (0u32, u32::MAX, 0x7F000000u32, 8u8),
        (0, u32::MAX, 0, 0),
        (0x01000000, 0x010000FF, 0x01000010, 28),
        (100, 200000, 0x00000000, 16),
        (5, 10, 0xFFFFFFFF, 32),
    ];
    for &(from, to, rem, m) in cases.iter() {
        let c = Ipv4Cidr::new(rem, m).unwrap();
        let d = c;
        let mut list = Ipv4CidrList::from_range(from, to);
        let mut modl = Ipv4CidrList::from_range(from, to);
        if modl.remove(&c) {
            assert!(modl.insert(c));
            list.insert(d);
        }
        assert!(list == modl);
    }
}

#[test]
fn remove_splits_ancestor() {
    let mut list = Ipv4CidrList::from_range(0, u32::MAX);
    assert_eq!(1, list.len());
    let rem = Ipv4Cidr::from_str("127.0.0.0/8").unwrap();
    assert!(list.remove(&rem));
    assert_eq!(8, list.len());
    assert!(!list.contains_ip(addr_of("127.1.2.3")));
    assert!(list.contains_ip(addr_of("126.255.255.255")));
    assert!(list.contains_ip(addr_of("128.0.0.0")));
    // Putting the block back restores the single universal member.
    assert!(list.insert(rem));
    assert_eq!(1, list.len());
    assert_eq!("0.0.0.0/0", list.to_string().trim());
}

#[test]
fn search_parent_finds_ancestors() {
    let mut list = Ipv4CidrList::new();
    list.insert(Ipv4Cidr::from_str("10.0.0.0/8").unwrap());
    list.insert(Ipv4Cidr::from_str("192.168.0.0/16").unwrap());
    let inner = Ipv4Cidr::from_str("10.20.0.0/16").unwrap();
    let parent = list.search_parent(&inner).unwrap();
    assert_eq!("10.0.0.0/8", parent.to_string());
    let exact = Ipv4Cidr::from_str("192.168.0.0/16").unwrap();
    assert_eq!(
        "192.168.0.0/16",
        list.search_parent(&exact).unwrap().to_string()
    );
    let outside = Ipv4Cidr::from_str("11.0.0.0/16").unwrap();
    assert!(list.search_parent(&outside).is_none());
    // A block larger than any member has no parent.
    let larger = Ipv4Cidr::from_str("10.0.0.0/4").unwrap();
    assert!(list.search_parent(&larger).is_none());
    assert!(list.contains_cidr(&inner));
    assert!(!list.contains_cidr(&larger));
}

#[test]
fn insert_reports_change() {
    let mut list = Ipv4CidrList::new();
    assert!(list.insert(Ipv4Cidr::from_str("10.0.0.0/8").unwrap()));
    // A block already covered by a strictly larger member changes nothing.
    assert!(!list.insert(Ipv4Cidr::from_str("10.20.0.0/16").unwrap()));
    assert_eq!(1, list.len());
    // Removing a block that is not covered changes nothing either.
    assert!(!list.remove(&Ipv4Cidr::from_str("11.0.0.0/8").unwrap()));
    assert_eq!(1, list.len());
}

#[test]
fn iter_walks_in_address_order() {
    let mut list = Ipv4CidrList::new();
    list.insert(Ipv4Cidr::from_str("6.0.0.0/7").unwrap());
    list.insert(Ipv4Cidr::from_str("4.0.0.0/8").unwrap());
    list.insert(Ipv4Cidr::from_str("5.61.0.0/16").unwrap());
    let blocks = list.iter();
    assert_eq!(3, blocks.len());
    let mut last = 0u32;
    for b in blocks.iter() {
        assert!(b.first_ip() >= last);
        last = b.first_ip();
    }
    assert_eq!("4.0.0.0/8", blocks[0].to_string());
    assert_eq!("5.61.0.0/16", blocks[1].to_string());
    assert_eq!("6.0.0.0/7", blocks[2].to_string());
}

#[test]
fn to_range_coalesces_adjacent_blocks() {
    let mut list = Ipv4CidrList::new();
    list.insert(Ipv4Cidr::from_str("1.0.0.0/24").unwrap());
    list.insert(Ipv4Cidr::from_str("3.0.0.0/24").unwrap());
    let ranges = list.to_range();
    assert_eq!(
        vec![
            (addr_of("1.0.0.0"), addr_of("1.0.0.255")),
            (addr_of("3.0.0.0"), addr_of("3.0.0.255")),
        ],
        ranges
    );
    // Adjacent halves merge into one member, hence one run.
    let mut list = Ipv4CidrList::new();
    list.insert(Ipv4Cidr::from_str("2.0.0.0/24").unwrap());
    list.insert(Ipv4Cidr::from_str("2.0.1.0/24").unwrap());
    assert_eq!(1, list.len());
    assert_eq!(vec![(addr_of("2.0.0.0"), addr_of("2.0.1.255"))], list.to_range());
}
