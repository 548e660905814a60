//! The flattened device tree the bootloader hands over: its header, the
//! walk over the structure block, and the summary the kernel keeps (RAM
//! regions and device base addresses).
use vstd::prelude::*;
use crate::ntp::be32;

verus! {

/// Maximum RAM regions recorded.
pub const MAX_MEMORY_REGIONS: usize = 8;

/// A RAM region `[base, base + size)`.
#[derive(Copy, Clone, Debug)]
pub struct MemoryRegion {
    pub base: u64,
    pub size: u64,
}

impl MemoryRegion {
    pub fn zero() -> (r: Self)
        ensures
            r.base == 0 && r.size == 0,
    {
        Self { base: 0, size: 0 }
    }

    pub fn is_valid(&self) -> (r: bool)
        ensures
            r == (self.size > 0),
    {
        self.size > 0
    }

    /// First address past the region.
    pub fn end(&self) -> (r: u64)
        requires
            self.base + self.size <= u64::MAX,
        ensures
            r == self.base + self.size,
    {
        self.base + self.size
    }
}

/// What the kernel reads from the device tree.
#[derive(Debug)]
pub struct DtbInfo {
    pub memory_regions: [MemoryRegion; MAX_MEMORY_REGIONS],
    pub memory_region_count: usize,
    pub uart_base: u64,
    pub gic_dist_base: u64,
    pub gic_cpu_base: u64,
}

/// Sum of the sizes of the first `n` regions, saturating at `u64::MAX`.
pub open spec fn ram_total(regions: Seq<MemoryRegion>, n: int) -> int
    decreases n,
{
    if n <= 0 {
        0
    } else {
        let t = ram_total(regions, n - 1) + regions[n - 1].size;
        if t > u64::MAX {
            u64::MAX as int
        } else {
            t
        }
    }
}

impl DtbInfo {
    /// No regions; the UART defaults to the QEMU virt PL011.
    pub fn empty() -> (d: Self)
        ensures
            d.memory_region_count == 0,
            d.uart_base == 0x09000000,
            d.gic_dist_base == 0,
            d.gic_cpu_base == 0,
    {
        Self {
            memory_regions: [MemoryRegion { base: 0, size: 0 }; MAX_MEMORY_REGIONS],
            memory_region_count: 0,
            uart_base: 0x09000000,
            gic_dist_base: 0,
            gic_cpu_base: 0,
        }
    }

    /// Record a region; ignored when the table is full or the size is zero.
    pub fn add_memory_region(&mut self, base: u64, size: u64)
        requires
            old(self).memory_region_count <= MAX_MEMORY_REGIONS,
        ensures
            final(self).memory_region_count <= MAX_MEMORY_REGIONS,
            final(self).uart_base == old(self).uart_base,
            final(self).gic_dist_base == old(self).gic_dist_base,
            final(self).gic_cpu_base == old(self).gic_cpu_base,
            (old(self).memory_region_count < MAX_MEMORY_REGIONS && size > 0) ==> {
                &&& final(self).memory_region_count == old(self).memory_region_count + 1
                &&& final(self).memory_regions@ == old(self).memory_regions@.update(
                    old(self).memory_region_count as int,
                    MemoryRegion { base, size },
                )
            },
            !(old(self).memory_region_count < MAX_MEMORY_REGIONS && size > 0) ==> *final(self) == *old(self),
            final(self).model() == add_region(old(self).model(), base, size),
    {
        if self.memory_region_count < MAX_MEMORY_REGIONS && size > 0 {
            let ghost before = self.memory_regions@;
            self.memory_regions[self.memory_region_count] = MemoryRegion { base, size };
            self.memory_region_count += 1;
            proof {
                assert(self.memory_regions@.take(self.memory_region_count as int) =~= before.take(
                    old(self).memory_region_count as int,
                ).push(MemoryRegion { base, size }));
            }
        }
    }

    /// Total RAM over the recorded regions (saturating).
    pub fn total_ram_bytes(&self) -> (r: u64)
        requires
            self.memory_region_count <= MAX_MEMORY_REGIONS,
        ensures
            r == ram_total(self.memory_regions@, self.memory_region_count as int),
    {
        let mut total = 0u64;
        let mut i: usize = 0;
        while i < self.memory_region_count
            invariant
                self.memory_region_count <= MAX_MEMORY_REGIONS,
                i <= self.memory_region_count,
                total == ram_total(self.memory_regions@, i as int),
            decreases self.memory_region_count - i,
        {
            total = total.saturating_add(self.memory_regions[i].size);
            i += 1;
        }
        total
    }
}

/// Why a device tree was rejected.
#[derive(Debug)]
pub enum DtbError {
    NullAddress,
    BadMagic(u32),
    BadVersion(u32),
    OutOfBounds,
}

pub const FDT_MAGIC: u32 = 0xD00DFEED;

pub const FDT_BEGIN_NODE: u32 = 0x00000001;

pub const FDT_END_NODE: u32 = 0x00000002;

pub const FDT_PROP: u32 = 0x00000003;

pub const FDT_NOP: u32 = 0x00000004;

/// Length of the header read.
pub const FDT_HEADER_LEN: usize = 40;

/// The lowest header version understood.
pub const FDT_MIN_VERSION: u32 = 17;

/// The summary as plain values: the regions recorded, then the addresses.
pub struct DtbModel {
    pub regions: Seq<MemoryRegion>,
    pub uart_base: u64,
    pub gic_dist_base: u64,
    pub gic_cpu_base: u64,
}

impl DtbInfo {
    /// The regions recorded and the addresses.
    pub open spec fn model(&self) -> DtbModel {
        DtbModel {
            regions: self.memory_regions@.take(self.memory_region_count as int),
            uart_base: self.uart_base,
            gic_dist_base: self.gic_dist_base,
            gic_cpu_base: self.gic_cpu_base,
        }
    }
}

/// `m` with a region added, when there is room and the size is not zero.
pub open spec fn add_region(m: DtbModel, base: u64, size: u64) -> DtbModel {
    if m.regions.len() < MAX_MEMORY_REGIONS && size > 0 {
        DtbModel { regions: m.regions.push(MemoryRegion { base, size }), ..m }
    } else {
        m
    }
}

/// The empty summary.
pub open spec fn empty_model() -> DtbModel {
    DtbModel { regions: Seq::empty(), uart_base: 0x09000000, gic_dist_base: 0, gic_cpu_base: 0 }
}

/// A big-endian word at `i`, or 0 where the blob ends first.
pub open spec fn rd32(b: Seq<u8>, i: int) -> u32 {
    if 0 <= i && i + 4 <= b.len() {
        be32(b, i)
    } else {
        0
    }
}

/// A big-endian double word at `i` (each half 0 where the blob ends first).
pub open spec fn rd64(b: Seq<u8>, i: int) -> u64 {
    (rd32(b, i) as int * 0x1_0000_0000 + rd32(b, i + 4) as int) as u64
}

/// The first zero byte at or after `i` and before `limit`, or `limit`.
pub open spec fn zero_pos(b: Seq<u8>, i: int, limit: int) -> int
    decreases limit - i,
{
    if i >= limit || i < 0 || i >= b.len() {
        limit
    } else if b[i] == 0 {
        i
    } else {
        zero_pos(b, i + 1, limit)
    }
}

/// `x` rounded up to a multiple of four.
pub open spec fn align4(x: int) -> int {
    (x + 3) / 4 * 4
}

/// `a` starts with `p`.
pub open spec fn bytes_prefix(a: Seq<u8>, p: Seq<u8>) -> bool {
    a.len() >= p.len() && a.take(p.len() as int) == p
}

pub open spec fn name_memory() -> Seq<u8> {
    seq![109u8, 101, 109, 111, 114, 121]
}

pub open spec fn name_pl011() -> Seq<u8> {
    seq![112u8, 108, 48, 49, 49]
}

pub open spec fn name_uart() -> Seq<u8> {
    seq![117u8, 97, 114, 116]
}

pub open spec fn name_intc() -> Seq<u8> {
    seq![105u8, 110, 116, 99]
}

pub open spec fn name_interrupt_controller() -> Seq<u8> {
    seq![105u8, 110, 116, 101, 114, 114, 117, 112, 116, 45, 99, 111, 110, 116, 114, 111, 108, 108, 101, 114]
}

pub open spec fn name_gic() -> Seq<u8> {
    seq![103u8, 105, 99]
}

pub open spec fn name_address_cells() -> Seq<u8> {
    seq![35u8, 97, 100, 100, 114, 101, 115, 115, 45, 99, 101, 108, 108, 115]
}

pub open spec fn name_size_cells() -> Seq<u8> {
    seq![35u8, 115, 105, 122, 101, 45, 99, 101, 108, 108, 115]
}

pub open spec fn name_reg() -> Seq<u8> {
    seq![114u8, 101, 103]
}

/// Where the blocks lie in the blob: the structure block's start and size,
/// and the strings block's start and end (both cut at the blob's end).
pub struct FdtLayout {
    pub start: int,
    pub size: int,
    pub strings: int,
    pub strings_end: int,
}

/// The walk's state: offset in the structure block, node depth, which kind
/// of node is open, the cell sizes, and the summary so far.
pub struct FdtScan {
    pub offset: int,
    pub depth: int,
    pub in_memory: bool,
    pub in_uart: bool,
    pub in_gic: bool,
    pub addr_cells: u32,
    pub size_cells: u32,
    pub info: DtbModel,
}

/// A property's name: the zero-terminated string at `name_off` in the
/// strings block; empty when the offset lies outside it.
pub open spec fn prop_name(b: Seq<u8>, l: FdtLayout, name_off: u32) -> Seq<u8> {
    let st = l.strings + name_off;
    if st < l.strings_end {
        b.subrange(st, zero_pos(b, st, l.strings_end))
    } else {
        Seq::empty()
    }
}

/// A cell of `cells` words at `i`: a double word for two cells, otherwise
/// one word.
pub open spec fn rd_cells(b: Seq<u8>, i: int, cells: u32) -> u64 {
    if cells == 2 {
        rd64(b, i)
    } else {
        rd32(b, i) as u64
    }
}

/// The regions of a memory node's `reg` property at `d` of `plen` bytes,
/// entries of `cell` bytes from `ro` on, added to `m`.
pub open spec fn reg_regions(b: Seq<u8>, d: int, ro: int, plen: int, ac: u32, sc: u32, m: DtbModel) -> DtbModel
    decreases plen - ro,
{
    let cell = (ac + sc) * 4;
    if cell > 0 && 0 <= ro && ro + cell <= plen {
        let base = rd_cells(b, d + ro, ac);
        let size = rd_cells(b, d + ro + ac * 4, sc);
        reg_regions(b, d, ro + cell, plen, ac, sc, add_region(m, base, size))
    } else {
        m
    }
}

/// The summary after a property of `plen` bytes named `name` with its
/// data at `d`, inside a memory, UART or interrupt-controller node or not.
pub open spec fn prop_info(
    b: Seq<u8>,
    d: int,
    plen: u32,
    name: Seq<u8>,
    ac: u32,
    sc: u32,
    in_memory: bool,
    in_uart: bool,
    in_gic: bool,
    m: DtbModel,
) -> DtbModel {
    let info1 = if in_memory && name == name_reg() {
        reg_regions(b, d, 0, plen as int, ac, sc, m)
    } else {
        m
    };
    let info2 = if in_uart && name == name_reg() && plen >= 8 {
        DtbModel { uart_base: rd_cells(b, d, ac), ..info1 }
    } else {
        info1
    };
    let cpu_off = ac * 4 + sc * 4;
    if in_gic && name == name_reg() && plen >= 16 {
        DtbModel {
            gic_dist_base: rd_cells(b, d, ac),
            gic_cpu_base: if cpu_off + ac * 4 <= plen {
                rd_cells(b, d + cpu_off, ac)
            } else {
                info2.gic_cpu_base
            },
            ..info2
        }
    } else {
        info2
    }
}

/// One token of the walk: the state after it, or nothing where the walk
/// stops (the block's end, an end token, an unknown token, or a memory
/// `reg` property with zero-sized cells, which would never end).
pub open spec fn scan_step(b: Seq<u8>, l: FdtLayout, s: FdtScan) -> Option<FdtScan> {
    if s.offset + 4 > l.size {
        None
    } else {
        let tok = rd32(b, l.start + s.offset);
        let o = s.offset + 4;
        if tok == FDT_BEGIN_NODE {
            let z = zero_pos(b, l.start + o, l.start + l.size);
            let name = b.subrange(l.start + o, z);
            let next = if z < l.start + l.size {
                z - l.start + 1
            } else {
                l.size
            };
            let d = s.depth + 1;
            Some(
                FdtScan {
                    offset: align4(next),
                    depth: d,
                    in_memory: d == 1 && bytes_prefix(name, name_memory()),
                    in_uart: d == 1 && (bytes_prefix(name, name_pl011()) || bytes_prefix(name, name_uart())),
                    in_gic: d == 1 && (bytes_prefix(name, name_intc()) || bytes_prefix(
                        name,
                        name_interrupt_controller(),
                    ) || bytes_prefix(name, name_gic())),
                    ..s
                },
            )
        } else if tok == FDT_END_NODE {
            let d = if s.depth > 0 {
                s.depth - 1
            } else {
                0
            };
            Some(
                FdtScan {
                    offset: o,
                    depth: d,
                    in_memory: d != 0 && s.in_memory,
                    in_uart: d != 0 && s.in_uart,
                    in_gic: d != 0 && s.in_gic,
                    ..s
                },
            )
        } else if tok == FDT_PROP {
            if o + 8 > l.size {
                None
            } else {
                let plen = rd32(b, l.start + o);
                let name = prop_name(b, l, rd32(b, l.start + o + 4));
                let o2 = o + 8;
                let d = l.start + o2;
                let ac = if s.depth == 1 && name == name_address_cells() && plen == 4 {
                    rd32(b, d)
                } else {
                    s.addr_cells
                };
                let sc = if s.depth == 1 && name == name_size_cells() && plen == 4 {
                    rd32(b, d)
                } else {
                    s.size_cells
                };
                if s.in_memory && name == name_reg() && (ac + sc) * 4 == 0 {
                    None
                } else {
                    let info3 = prop_info(b, d, plen, name, ac, sc, s.in_memory, s.in_uart, s.in_gic, s.info);
                    Some(FdtScan { offset: o2 + align4(plen as int), addr_cells: ac, size_cells: sc, info: info3, ..s })
                }
            }
        } else if tok == FDT_NOP {
            Some(FdtScan { offset: o, ..s })
        } else {
            None
        }
    }
}

/// In an interrupt controller's `reg` property, made of (address, size)
/// entries of `#address-cells` and `#size-cells` words, the distributor base
/// is the address of the first entry and the CPU interface base the address
/// of the second, which starts one entry, `(address cells + size cells) * 4`
/// bytes, into the data.  An address of two cells is the big-endian double
/// word there, one of one cell the word there.
pub proof fn law_gic_bases_are_first_two_entries(b: Seq<u8>, l: FdtLayout, s: FdtScan)
    requires
        s.offset + 12 <= l.size,
        rd32(b, l.start + s.offset) == FDT_PROP,
        s.in_gic,
        s.addr_cells >= 1,
        prop_name(b, l, rd32(b, l.start + s.offset + 8)) == name_reg(),
        rd32(b, l.start + s.offset + 4) >= 16,
        (s.addr_cells + s.size_cells) * 4 + s.addr_cells * 4 <= rd32(b, l.start + s.offset + 4),
    ensures
        ({
            let d = l.start + s.offset + 12;
            let e = d + (s.addr_cells + s.size_cells) * 4;
            &&& scan_step(b, l, s) is Some
            &&& s.addr_cells == 2 ==> scan_step(b, l, s)->0.info.gic_dist_base == (rd32(b, d) as int * 0x1_0000_0000
                + rd32(b, d + 4) as int) as u64
            &&& s.addr_cells != 2 ==> scan_step(b, l, s)->0.info.gic_dist_base == rd32(b, d) as u64
            &&& s.addr_cells == 2 ==> scan_step(b, l, s)->0.info.gic_cpu_base == (rd32(b, e) as int * 0x1_0000_0000
                + rd32(b, e + 4) as int) as u64
            &&& s.addr_cells != 2 ==> scan_step(b, l, s)->0.info.gic_cpu_base == rd32(b, e) as u64
        }),
{
    let name = prop_name(b, l, rd32(b, l.start + s.offset + 8));
    assert(name != name_address_cells());
    assert(name != name_size_cells());
}

/// In a memory node's `reg` property of two (address, size) entries, the
/// first entry's address and size, then the second's, are added as RAM
/// regions: each entry is `(address cells + size cells) * 4` bytes, its size
/// following its address cells.
pub proof fn law_memory_reg_entries(b: Seq<u8>, l: FdtLayout, s: FdtScan)
    requires
        s.offset + 12 <= l.size,
        rd32(b, l.start + s.offset) == FDT_PROP,
        s.in_memory,
        !s.in_uart,
        !s.in_gic,
        s.addr_cells >= 1,
        prop_name(b, l, rd32(b, l.start + s.offset + 8)) == name_reg(),
        rd32(b, l.start + s.offset + 4) == (s.addr_cells + s.size_cells) * 8,
    ensures
        ({
            let d = l.start + s.offset + 12;
            let e = (s.addr_cells + s.size_cells) * 4;
            let a = s.addr_cells * 4;
            &&& scan_step(b, l, s) is Some
            &&& scan_step(b, l, s)->0.info == add_region(
                add_region(s.info, rd_cells(b, d, s.addr_cells), rd_cells(b, d + a, s.size_cells)),
                rd_cells(b, d + e, s.addr_cells),
                rd_cells(b, d + e + a, s.size_cells),
            )
        }),
{
    let name = prop_name(b, l, rd32(b, l.start + s.offset + 8));
    assert(name != name_address_cells());
    assert(name != name_size_cells());
    let d = l.start + s.offset + 12;
    let ac = s.addr_cells;
    let sc = s.size_cells;
    let plen = rd32(b, l.start + s.offset + 4) as int;
    let e = (ac + sc) * 4;
    let m1 = add_region(s.info, rd_cells(b, d, ac), rd_cells(b, d + ac * 4, sc));
    let m2 = add_region(m1, rd_cells(b, d + e, ac), rd_cells(b, d + e + ac * 4, sc));
    assert(reg_regions(b, d, 0, plen, ac, sc, s.info) == reg_regions(b, d, e, plen, ac, sc, m1));
    assert(reg_regions(b, d, e, plen, ac, sc, m1) == reg_regions(b, d, 2 * e, plen, ac, sc, m2));
    assert(reg_regions(b, d, 2 * e, plen, ac, sc, m2) == m2);
}

/// A UART node's `reg` property gives the UART base: the address of its
/// first entry.
pub proof fn law_uart_base_is_first_entry(b: Seq<u8>, l: FdtLayout, s: FdtScan)
    requires
        s.offset + 12 <= l.size,
        rd32(b, l.start + s.offset) == FDT_PROP,
        s.in_uart,
        !s.in_gic,
        !s.in_memory,
        prop_name(b, l, rd32(b, l.start + s.offset + 8)) == name_reg(),
        rd32(b, l.start + s.offset + 4) >= 8,
    ensures
        scan_step(b, l, s) is Some,
        scan_step(b, l, s)->0.info.uart_base == rd_cells(b, l.start + s.offset + 12, s.addr_cells),
        scan_step(b, l, s)->0.info.regions == s.info.regions,
{
    let name = prop_name(b, l, rd32(b, l.start + s.offset + 8));
    assert(name != name_address_cells());
    assert(name != name_size_cells());
}

/// The summary the walk from state `s` ends with.
pub open spec fn scan(b: Seq<u8>, l: FdtLayout, s: FdtScan) -> DtbModel
    decreases l.size - s.offset,
{
    match scan_step(b, l, s) {
        Some(t) => if t.offset > l.size || t.offset <= s.offset {
            t.info
        } else {
            scan(b, l, t)
        },
        None => s.info,
    }
}

/// The layout a header gives: the structure block from `off_dt_struct` to
/// `totalsize`, the strings block of `size_dt_strings` bytes at
/// `off_dt_strings`, both cut at the blob's end.
pub open spec fn layout_of(b: Seq<u8>) -> FdtLayout {
    let total = rd32(b, 4) as int;
    let end = if total < b.len() {
        total
    } else {
        b.len() as int
    };
    let start = rd32(b, 8) as int;
    let strings = rd32(b, 12) as int;
    let str_end = strings + rd32(b, 36);
    FdtLayout {
        start,
        size: if end > start {
            end - start
        } else {
            0
        },
        strings,
        strings_end: if str_end < b.len() {
            str_end
        } else {
            b.len() as int
        },
    }
}

/// What a device tree blob gives: a blob too short for the header is out of
/// bounds; a wrong magic number or a version before 17 is refused;
/// otherwise the walk over the structure block from the root, with two
/// address cells and one size cell until the root says otherwise.
pub open spec fn parse_spec(b: Seq<u8>) -> Result<DtbModel, DtbError> {
    if b.len() < FDT_HEADER_LEN {
        Err(DtbError::OutOfBounds)
    } else if rd32(b, 0) != FDT_MAGIC {
        Err(DtbError::BadMagic(rd32(b, 0)))
    } else if rd32(b, 20) < FDT_MIN_VERSION {
        Err(DtbError::BadVersion(rd32(b, 20)))
    } else {
        Ok(
            scan(
                b,
                layout_of(b),
                FdtScan {
                    offset: 0,
                    depth: 0,
                    in_memory: false,
                    in_uart: false,
                    in_gic: false,
                    addr_cells: 2,
                    size_cells: 1,
                    info: empty_model(),
                },
            ),
        )
    }
}

/// The word at `i`, or 0 where the blob ends first.
fn rd32_at(b: &[u8], i: u64) -> (r: u32)
    ensures
        r == rd32(b@, i as int),
{
    let n = b.len() as u64;
    if n >= 4 && i <= n - 4 {
        let k = i as usize;
        (b[k] as u32) * 16777216 + (b[k + 1] as u32) * 65536 + (b[k + 2] as u32) * 256 + b[k + 3] as u32
    } else {
        0
    }
}

/// The word at `x + y`, or 0 where the blob ends first.
fn rd32_sum(b: &[u8], x: u64, y: u64) -> (r: u32)
    ensures
        r == rd32(b@, x + y),
{
    let n = b.len();
    assert(n == b@.len());
    if x > u64::MAX - y {
        0
    } else {
        rd32_at(b, x + y)
    }
}

/// A cell of `cells` words at `x + y`.
fn rd_cells_sum(b: &[u8], x: u64, y: u64, cells: u32) -> (r: u64)
    ensures
        r == rd_cells(b@, x + y, cells),
{
    let hi = rd32_sum(b, x, y);
    let n = b.len();
    assert(n == b@.len());
    if cells == 2 {
        let lo = if x > u64::MAX - y || x + y > u64::MAX - 4 {
            0
        } else {
            rd32_at(b, x + y + 4)
        };
        proof {
            if x + y > u64::MAX - 4 {
                assert(rd32(b@, x + y + 4) == 0);
            }
        }
        (hi as u64) * 0x1_0000_0000 + lo as u64
    } else {
        hi as u64
    }
}

/// The first zero byte at or after `i` and before `limit`, or `limit`.
fn zero_at(b: &[u8], i: u64, limit: u64) -> (r: u64)
    requires
        limit <= b@.len(),
    ensures
        r == zero_pos(b@, i as int, limit as int),
        i <= limit ==> i <= r <= limit,
{
    let mut j = i;
    while j < limit && b[j as usize] != 0
        invariant
            limit <= b@.len(),
            i <= j || j >= limit,
            zero_pos(b@, i as int, limit as int) == zero_pos(b@, j as int, limit as int),
            i <= limit ==> j <= limit,
        decreases limit - j,
    {
        j += 1;
    }
    if j >= limit {
        limit
    } else {
        j
    }
}

/// Bytes `[s, e)` of the blob.
fn copy_range(b: &[u8], s: u64, e: u64) -> (v: Vec<u8>)
    requires
        s <= e <= b@.len(),
    ensures
        v@ == b@.subrange(s as int, e as int),
{
    let mut v: Vec<u8> = Vec::new();
    let mut k = s;
    while k < e
        invariant
            s <= k <= e <= b@.len(),
            v@ == b@.subrange(s as int, k as int),
        decreases e - k,
    {
        v.push(b[k as usize]);
        proof {
            assert(v@ =~= b@.subrange(s as int, k + 1));
        }
        k += 1;
    }
    v
}

/// `a` starts with `p`.
fn starts_with_bytes(a: &[u8], p: &[u8]) -> (r: bool)
    ensures
        r == bytes_prefix(a@, p@),
{
    if a.len() < p.len() {
        return false;
    }
    let mut i: usize = 0;
    while i < p.len()
        invariant
            p@.len() <= a@.len(),
            i <= p@.len(),
            forall|k: int| 0 <= k < i ==> a@[k] == p@[k],
        decreases p@.len() - i,
    {
        if a[i] != p[i] {
            assert(a@.take(p@.len() as int)[i as int] != p@[i as int]);
            return false;
        }
        i += 1;
    }
    assert(a@.take(p@.len() as int) =~= p@);
    true
}

/// `a` equals `p`.
fn eq_bytes(a: &[u8], p: &[u8]) -> (r: bool)
    ensures
        r == (a@ == p@),
{
    if a.len() != p.len() {
        return false;
    }
    let r = starts_with_bytes(a, p);
    proof {
        assert(a@.take(p@.len() as int) =~= a@);
    }
    r
}

fn bytes_memory() -> (v: Vec<u8>)
    ensures
        v@ == name_memory(),
{
    let v: Vec<u8> = vec![109u8, 101, 109, 111, 114, 121];
    assert(v@ =~= name_memory());
    v
}

fn bytes_pl011() -> (v: Vec<u8>)
    ensures
        v@ == name_pl011(),
{
    let v: Vec<u8> = vec![112u8, 108, 48, 49, 49];
    assert(v@ =~= name_pl011());
    v
}

fn bytes_uart() -> (v: Vec<u8>)
    ensures
        v@ == name_uart(),
{
    let v: Vec<u8> = vec![117u8, 97, 114, 116];
    assert(v@ =~= name_uart());
    v
}

fn bytes_intc() -> (v: Vec<u8>)
    ensures
        v@ == name_intc(),
{
    let v: Vec<u8> = vec![105u8, 110, 116, 99];
    assert(v@ =~= name_intc());
    v
}

fn bytes_interrupt_controller() -> (v: Vec<u8>)
    ensures
        v@ == name_interrupt_controller(),
{
    let v: Vec<u8> = vec![105u8, 110, 116, 101, 114, 114, 117, 112, 116, 45, 99, 111, 110, 116, 114, 111, 108, 108, 101, 114];
    assert(v@ =~= name_interrupt_controller());
    v
}

fn bytes_gic() -> (v: Vec<u8>)
    ensures
        v@ == name_gic(),
{
    let v: Vec<u8> = vec![103u8, 105, 99];
    assert(v@ =~= name_gic());
    v
}

fn bytes_address_cells() -> (v: Vec<u8>)
    ensures
        v@ == name_address_cells(),
{
    let v: Vec<u8> = vec![35u8, 97, 100, 100, 114, 101, 115, 115, 45, 99, 101, 108, 108, 115];
    assert(v@ =~= name_address_cells());
    v
}

fn bytes_size_cells() -> (v: Vec<u8>)
    ensures
        v@ == name_size_cells(),
{
    let v: Vec<u8> = vec![35u8, 115, 105, 122, 101, 45, 99, 101, 108, 108, 115];
    assert(v@ =~= name_size_cells());
    v
}

fn bytes_reg() -> (v: Vec<u8>)
    ensures
        v@ == name_reg(),
{
    let v: Vec<u8> = vec![114u8, 101, 103];
    assert(v@ =~= name_reg());
    v
}

/// Apply a property to the summary (see `prop_info`).
fn apply_prop(
    info: &mut DtbInfo,
    blob: &[u8],
    d: u64,
    plen: u32,
    is_reg: bool,
    Ghost(name): Ghost<Seq<u8>>,
    ac2: u32,
    sc2: u32,
    in_memory: bool,
    in_uart: bool,
    in_gic: bool,
)
    requires
        old(info).memory_region_count <= MAX_MEMORY_REGIONS,
        is_reg == (name == name_reg()),
        in_memory && is_reg ==> (ac2 + sc2) * 4 > 0,
    ensures
        final(info).memory_region_count <= MAX_MEMORY_REGIONS,
        final(info).model() == prop_info(blob@, d as int, plen, name, ac2, sc2, in_memory, in_uart, in_gic, old(info).model()),
{
    let ghost m0 = info.model();
    let cell = (ac2 as u64 + sc2 as u64) * 4;
    if in_memory && is_reg {
        let mut ro: u64 = 0;
        while ro + cell <= plen as u64
            invariant
                cell == (ac2 + sc2) * 4,
                cell > 0,
                ro <= plen as u64 + cell,
                info.memory_region_count <= MAX_MEMORY_REGIONS,
                info.uart_base == m0.uart_base,
                info.gic_dist_base == m0.gic_dist_base,
                info.gic_cpu_base == m0.gic_cpu_base,
                reg_regions(blob@, d as int, ro as int, plen as int, ac2, sc2, info.model()) == reg_regions(
                    blob@,
                    d as int,
                    0,
                    plen as int,
                    ac2,
                    sc2,
                    m0,
                ),
            decreases plen as u64 + cell - ro,
        {
            let base = rd_cells_sum(blob, d, ro, ac2);
            let sz = rd_cells_sum(blob, d, ro + ac2 as u64 * 4, sc2);
            info.add_memory_region(base, sz);
            ro = ro + cell;
        }
    }
    let ghost m1 = info.model();
    assert(m1 == (if in_memory && is_reg {
        reg_regions(blob@, d as int, 0, plen as int, ac2, sc2, m0)
    } else {
        m0
    }));
    if in_uart && is_reg && plen >= 8 {
        info.uart_base = rd_cells_sum(blob, d, 0, ac2);
    }
    if in_gic && is_reg && plen >= 16 {
        info.gic_dist_base = rd_cells_sum(blob, d, 0, ac2);
        let cpu_off = ac2 as u64 * 4 + sc2 as u64 * 4;
        if cpu_off + ac2 as u64 * 4 <= plen as u64 {
            info.gic_cpu_base = rd_cells_sum(blob, d, cpu_off, ac2);
        }
    }
}

proof fn lemma_align4(x: int)
    requires
        x >= 0,
    ensures
        x % 4 == 0 ==> align4(x) == x,
        x % 4 != 0 ==> align4(x) == x + (4 - x % 4),
        align4(x) >= x,
{
}

/// The walk's state as the parser keeps it.
pub struct Walk {
    pub offset: u64,
    pub depth: u64,
    pub in_memory: bool,
    pub in_uart: bool,
    pub in_gic: bool,
    pub ac: u32,
    pub sc: u32,
    pub info: DtbInfo,
}

impl Walk {
    pub open spec fn view(&self) -> FdtScan {
        FdtScan {
            offset: self.offset as int,
            depth: self.depth as int,
            in_memory: self.in_memory,
            in_uart: self.in_uart,
            in_gic: self.in_gic,
            addr_cells: self.ac,
            size_cells: self.sc,
            info: self.info.model(),
        }
    }

    /// Within the block, and the summary within its table.
    pub open spec fn walk_ok(&self, size: u64) -> bool {
        &&& self.offset <= size
        &&& self.depth <= self.offset
        &&& self.info.memory_region_count <= MAX_MEMORY_REGIONS
    }
}

/// The layout facts the steps rely on.
pub open spec fn layout_facts(b: Seq<u8>, start: u64, size: u64, strings: u64, str_end: u64) -> bool {
    &&& layout_of(b) == (FdtLayout { start: start as int, size: size as int, strings: strings as int, strings_end: str_end as int })
    &&& size > 0 ==> start + size <= b.len()
    &&& str_end <= b.len()
    &&& strings <= 0x1_0000_0000
}

/// One step of the walk: true when it goes on (the walk from the new state
/// ends where the walk from the old one does), false when it stops (the
/// summary is then the walk's result).
fn walk_step(blob: &[u8], start: u64, size: u64, strings: u64, str_end: u64, w: &mut Walk) -> (go: bool)
    requires
        layout_facts(blob@, start, size, strings, str_end),
        old(w).walk_ok(size),
    ensures
        final(w).walk_ok(size),
        go ==> scan(blob@, layout_of(blob@), final(w).view()) == scan(blob@, layout_of(blob@), old(w).view())
            && final(w).offset > old(w).offset,
        !go ==> final(w).info.model() == scan(blob@, layout_of(blob@), old(w).view()),
{
    let ghost l = layout_of(blob@);
    let ghost s0 = w.view();
    if size - w.offset < 4 {
        return false;
    }
    let tok = rd32_sum(blob, start, w.offset);
    let o = w.offset + 4;
    if tok == FDT_BEGIN_NODE {
        begin_step(blob, start, size, strings, str_end, w)
    } else if tok == FDT_END_NODE {
        let d = if w.depth > 0 {
            w.depth - 1
        } else {
            0
        };
        w.in_memory = d != 0 && w.in_memory;
        w.in_uart = d != 0 && w.in_uart;
        w.in_gic = d != 0 && w.in_gic;
        w.depth = d;
        w.offset = o;
        assert(scan_step(blob@, l, s0) == Some(w.view()));
        true
    } else if tok == FDT_PROP {
        prop_step(blob, start, size, strings, str_end, w)
    } else if tok == FDT_NOP {
        w.offset = o;
        assert(scan_step(blob@, l, s0) == Some(w.view()));
        true
    } else {
        false
    }
}

#[verifier::rlimit(100)]
fn begin_step(blob: &[u8], start: u64, size: u64, strings: u64, str_end: u64, w: &mut Walk) -> (go: bool)
    requires
        layout_facts(blob@, start, size, strings, str_end),
        old(w).walk_ok(size),
        size - old(w).offset >= 4,
        rd32(blob@, start + old(w).offset) == FDT_BEGIN_NODE,
    ensures
        final(w).walk_ok(size),
        go ==> scan(blob@, layout_of(blob@), final(w).view()) == scan(blob@, layout_of(blob@), old(w).view())
            && final(w).offset > old(w).offset,
        !go ==> final(w).info.model() == scan(blob@, layout_of(blob@), old(w).view()),
{
    let ghost l = layout_of(blob@);
    let ghost s0 = w.view();
    let o = w.offset + 4;
    let z = zero_at(blob, start + o, start + size);
    let name = copy_range(blob, start + o, z);
    let next = if z < start + size {
        z - start + 1
    } else {
        size
    };
    let rem = next % 4;
    proof {
        lemma_align4(next as int);
    }
    if rem != 0 && next > u64::MAX - (4 - rem) {
        return false;
    }
    let aligned = if rem == 0 {
        next
    } else {
        next + (4 - rem)
    };
    proof {
        lemma_align4(next as int);
    }
    if aligned > size {
        proof {
            assert(scan_step(blob@, l, s0) matches Some(t) && t.offset > l.size && t.info == s0.info);
        }
        return false;
    }
    let d = w.depth + 1;
    let m_memory = bytes_memory();
    let m_pl011 = bytes_pl011();
    let m_uart = bytes_uart();
    let m_intc = bytes_intc();
    let m_ic = bytes_interrupt_controller();
    let m_gic = bytes_gic();
    w.in_memory = d == 1 && starts_with_bytes(&name, &m_memory);
    w.in_uart = d == 1 && (starts_with_bytes(&name, &m_pl011) || starts_with_bytes(&name, &m_uart));
    w.in_gic = d == 1 && (starts_with_bytes(&name, &m_intc) || starts_with_bytes(&name, &m_ic) || starts_with_bytes(
        &name,
        &m_gic,
    ));
    w.depth = d;
    w.offset = aligned;
    assert(scan_step(blob@, l, s0) == Some(w.view()));
    true
}

fn prop_step(blob: &[u8], start: u64, size: u64, strings: u64, str_end: u64, w: &mut Walk) -> (go: bool)
    requires
        layout_facts(blob@, start, size, strings, str_end),
        old(w).walk_ok(size),
        size - old(w).offset >= 4,
        rd32(blob@, start + old(w).offset) == FDT_PROP,
    ensures
        final(w).walk_ok(size),
        go ==> scan(blob@, layout_of(blob@), final(w).view()) == scan(blob@, layout_of(blob@), old(w).view())
            && final(w).offset > old(w).offset,
        !go ==> final(w).info.model() == scan(blob@, layout_of(blob@), old(w).view()),
{
    let ghost l = layout_of(blob@);
    let ghost s0 = w.view();
    let o = w.offset + 4;
    if size - o < 8 {
        return false;
    }
    let plen = rd32_sum(blob, start, o);
    let noff = rd32_sum(blob, start, o + 4);
    let st = strings + noff as u64;
    let pname: Vec<u8> = if st < str_end {
        let zz = zero_at(blob, st, str_end);
        copy_range(blob, st, zz)
    } else {
        Vec::new()
    };
    assert(pname@ == prop_name(blob@, l, noff));
    let o2 = o + 8;
    let d = start + o2;
    let m_ac = bytes_address_cells();
    let m_sc = bytes_size_cells();
    let m_reg = bytes_reg();
    let ac2 = if w.depth == 1 && eq_bytes(&pname, &m_ac) && plen == 4 {
        rd32_sum(blob, d, 0)
    } else {
        w.ac
    };
    let sc2 = if w.depth == 1 && eq_bytes(&pname, &m_sc) && plen == 4 {
        rd32_sum(blob, d, 0)
    } else {
        w.sc
    };
    let is_reg = eq_bytes(&pname, &m_reg);
    let cell = (ac2 as u64 + sc2 as u64) * 4;
    if w.in_memory && is_reg && cell == 0 {
        return false;
    }
    apply_prop(&mut w.info, blob, d, plen, is_reg, Ghost(pname@), ac2, sc2, w.in_memory, w.in_uart, w.in_gic);
    let al = (plen as u64 + 3) / 4 * 4;
    assert(al == align4(plen as int));
    if o2 > u64::MAX - al || o2 + al > size {
        return false;
    }
    w.ac = ac2;
    w.sc = sc2;
    w.offset = o2 + al;
    assert(scan_step(blob@, l, s0) == Some(w.view()));
    true
}

/// Parse a flattened device tree blob (see `parse_spec`): the RAM regions,
/// the UART base and the GIC distributor and CPU interface bases.
#[verifier::rlimit(100)]
#[verifier::spinoff_prover]
pub fn parse_dtb(blob: &[u8]) -> (r: Result<DtbInfo, DtbError>)
    ensures
        match parse_spec(blob@) {
            Ok(m) => r is Ok && r->Ok_0.model() == m && r->Ok_0.memory_region_count <= MAX_MEMORY_REGIONS,
            Err(e) => r == Err::<DtbInfo, DtbError>(e),
        },
{
    let n = blob.len();
    if n < FDT_HEADER_LEN {
        return Err(DtbError::OutOfBounds);
    }
    let magic = rd32_at(blob, 0);
    if magic != FDT_MAGIC {
        return Err(DtbError::BadMagic(magic));
    }
    let version = rd32_at(blob, 20);
    if version < FDT_MIN_VERSION {
        return Err(DtbError::BadVersion(version));
    }
    let n64 = n as u64;
    let total = rd32_at(blob, 4) as u64;
    let end = if total < n64 {
        total
    } else {
        n64
    };
    let start = rd32_at(blob, 8) as u64;
    let size = if end > start {
        end - start
    } else {
        0
    };
    let strings = rd32_at(blob, 12) as u64;
    let str_end0 = strings + rd32_at(blob, 36) as u64;
    let str_end = if str_end0 < n64 {
        str_end0
    } else {
        n64
    };
    let ghost l = layout_of(blob@);
    assert(l == FdtLayout {
        start: start as int,
        size: size as int,
        strings: strings as int,
        strings_end: str_end as int,
    });
    let mut w = Walk {
        offset: 0,
        depth: 0,
        in_memory: false,
        in_uart: false,
        in_gic: false,
        ac: 2,
        sc: 1,
        info: DtbInfo::empty(),
    };
    let ghost g0 = w.view();
    assert(w.info.model().regions =~= Seq::<MemoryRegion>::empty());
    assert(g0 == (FdtScan {
        offset: 0,
        depth: 0,
        in_memory: false,
        in_uart: false,
        in_gic: false,
        addr_cells: 2,
        size_cells: 1,
        info: empty_model(),
    }));
    loop
        invariant_except_break
            scan(blob@, l, w.view()) == scan(blob@, l, g0),
        invariant
            l == layout_of(blob@),
            l == (FdtLayout { start: start as int, size: size as int, strings: strings as int, strings_end: str_end as int }),
            n == blob@.len(),
            size > 0 ==> start + size <= n,
            str_end <= n,
            strings <= 0x1_0000_0000,
            w.walk_ok(size),
        ensures
            w.info.memory_region_count <= MAX_MEMORY_REGIONS,
            w.info.model() == scan(blob@, l, g0),
        decreases size - w.offset,
    {
        let go = walk_step(blob, start, size, strings, str_end, &mut w);
        if !go {
            break;
        }
    }
    Ok(w.info)
}

} // verus!
