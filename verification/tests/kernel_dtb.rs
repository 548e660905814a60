use theos::buddy_allocator::BuddyAllocator;
use theos::kernel::hal::dtb::{parse_dtb, DtbError};
use theos::kernel::memory::init_from_dtb;

fn pad4(v: &mut Vec<u8>) {
    while v.len() % 4 != 0 {
        v.push(0);
    }
}

fn node(s: &mut Vec<u8>, name: &str, reg: &[u8]) {
    s.extend_from_slice(&1u32.to_be_bytes());
    s.extend_from_slice(name.as_bytes());
    s.push(0);
    pad4(s);
    s.extend_from_slice(&3u32.to_be_bytes());
    s.extend_from_slice(&(reg.len() as u32).to_be_bytes());
    s.extend_from_slice(&0u32.to_be_bytes()); // "reg" at strings offset 0
    s.extend_from_slice(reg);
    pad4(s);
    s.extend_from_slice(&2u32.to_be_bytes());
}

/// A tree with a memory node and a PL011 node at the top level, two address
/// cells and one size cell.
fn blob() -> Vec<u8> {
    let mut st = Vec::new();
    let mut reg = Vec::new();
    reg.extend_from_slice(&0x4000_0000u64.to_be_bytes());
    reg.extend_from_slice(&0x0100_0000u32.to_be_bytes());
    node(&mut st, "memory@40000000", &reg);
    let mut ureg = Vec::new();
    ureg.extend_from_slice(&0x0900_0000u64.to_be_bytes());
    ureg.extend_from_slice(&0x1000u32.to_be_bytes());
    node(&mut st, "pl011@9000000", &ureg);
    st.extend_from_slice(&9u32.to_be_bytes());
    let strings = b"reg\0".to_vec();
    let total = 40 + st.len() + strings.len();
    let mut h = Vec::new();
    for v in [0xD00D_FEEDu32, total as u32, 40, (40 + st.len()) as u32, 0, 17, 16, 0, 4, 4] {
        h.extend_from_slice(&v.to_be_bytes());
    }
    h.extend_from_slice(&st);
    h.extend_from_slice(&strings);
    h
}

#[test]
fn tree_gives_ram_and_uart() {
    let info = parse_dtb(&blob()).unwrap();
    assert_eq!(info.memory_region_count, 1);
    assert_eq!(info.memory_regions[0].base, 0x4000_0000);
    assert_eq!(info.memory_regions[0].size, 0x0100_0000);
    assert_eq!(info.uart_base, 0x0900_0000);
    assert_eq!(info.gic_dist_base, 0);
    assert_eq!(info.total_ram_bytes(), 0x0100_0000);
}

#[test]
fn bad_trees_are_refused() {
    assert!(matches!(parse_dtb(&[0u8; 10]), Err(DtbError::OutOfBounds)));
    let mut b = blob();
    b[0] = 0;
    assert!(matches!(parse_dtb(&b), Err(DtbError::BadMagic(0x000D_FEED))));
    let mut b = blob();
    b[23] = 16;
    assert!(matches!(parse_dtb(&b), Err(DtbError::BadVersion(16))));
}

#[test]
fn memory_comes_up_from_the_tree() {
    let info = parse_dtb(&blob()).unwrap();
    let mut a = BuddyAllocator::new();
    let ks = 0x4000_0000u64;
    let ke = ks + 128 * 4096;
    let page = init_from_dtb(&mut a, &info, ks, ke).unwrap();
    assert_eq!(page, 0x4008_0000);
    assert_eq!(a.stats(), (4096, 128, 3968));
}
