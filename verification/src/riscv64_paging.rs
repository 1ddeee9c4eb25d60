//! Sv39 page tables: 3 levels, 4 KiB pages, 39-bit virtual addresses
//! (`VPN[2]:VPN[1]:VPN[0]:offset`, 9+9+9+12 bits) and 56-bit physical addresses
//! (`PPN[2]:PPN[1]:PPN[0]`, 26+9+9 bits) in the entries.
//!
//! Page tables live in physical memory, which [`PhysMemory`] holds as 4 KiB frames
//! of 512 eight-byte words, addressed by their physical address. A frame that was
//! never written reads as all zero, the "all entries invalid" state of a table.
//! [`map`], [`map_megapage`] and [`translate`] walk and fill tables in it exactly
//! as the hardware walker reads them.

use vstd::prelude::*;

verus! {

pub const PAGE_SIZE: usize = 4096;
pub const PAGE_SHIFT: usize = 12;
pub const ENTRIES_PER_TABLE: usize = 512;
const LEVELS: usize = 3;

/// 2 MiB: an Sv39 "megapage", a leaf placed one level up from a 4 KiB page.
pub const MEGAPAGE_SIZE: usize = 0x20_0000;

/// Permission and status bits of a page-table entry.
#[derive(Clone, Copy, PartialEq, Eq, Debug, Structural)]
pub struct PteFlags(u64);

impl PteFlags {
    /// The entry's flag bits.
    pub closed spec fn bits(self) -> u64 {
        self.0
    }

    /// Every flags value lies in the low byte of an entry, below the PPN field.
    #[verifier::type_invariant]
    pub open spec fn bits_in_low_byte(self) -> bool {
        self.bits() < 0x100
    }

    /// Flags with the same bits are the same flags.
    pub proof fn lemma_bits_determine(a: PteFlags, b: PteFlags)
        requires
            a.bits() == b.bits(),
        ensures
            a == b,
    {
    }

    #[allow(non_snake_case)]
    pub fn VALID() -> (f: PteFlags)
        ensures
            f.bits() == 1,
    {
        PteFlags(1)
    }

    #[allow(non_snake_case)]
    pub fn READ() -> (f: PteFlags)
        ensures
            f.bits() == 2,
    {
        PteFlags(2)
    }

    #[allow(non_snake_case)]
    pub fn WRITE() -> (f: PteFlags)
        ensures
            f.bits() == 4,
    {
        PteFlags(4)
    }

    #[allow(non_snake_case)]
    pub fn EXECUTE() -> (f: PteFlags)
        ensures
            f.bits() == 8,
    {
        PteFlags(8)
    }

    /// Accessible from U-mode. Without this bit a page is invisible to user-mode
    /// code even though it is present in the active table.
    #[allow(non_snake_case)]
    pub fn USER() -> (f: PteFlags)
        ensures
            f.bits() == 0x10,
    {
        PteFlags(0x10)
    }

    #[allow(non_snake_case)]
    fn ACCESSED() -> (f: PteFlags)
        ensures
            f.bits() == 0x40,
    {
        PteFlags(0x40)
    }

    #[allow(non_snake_case)]
    fn DIRTY() -> (f: PteFlags)
        ensures
            f.bits() == 0x80,
    {
        PteFlags(0x80)
    }

    pub fn union(self, other: PteFlags) -> (f: PteFlags)
        ensures
            f.bits() == self.bits() | other.bits(),
    {
        proof {
            use_type_invariant(&self);
            use_type_invariant(&other);
            lemma_or_below_byte(self.0, other.0);
        }
        PteFlags(self.0 | other.0)
    }
}

proof fn lemma_or_below_byte(a: u64, b: u64)
    by (bit_vector)
    requires
        a < 0x100,
        b < 0x100,
    ensures
        a | b < 0x100,
{
}

/// The entry's V bit.
pub open spec fn pte_valid(e: u64) -> bool {
    e & 1u64 != 0
}

/// A leaf has at least one of R/W/X set; a branch (pointer to the next table level)
/// has none.
pub open spec fn pte_leaf(e: u64) -> bool {
    e & 0xEu64 != 0
}

/// The physical page number an entry names.
pub open spec fn pte_ppn(e: u64) -> u64 {
    (e >> 10u64) & 0x0FFF_FFFF_FFFFu64
}

/// The physical address an entry names: the next table, or the mapped page.
pub open spec fn pte_target(e: u64) -> u64 {
    pte_ppn(e) << 12u64
}

/// A branch entry naming the table at `table`.
pub open spec fn branch_pte(table: u64) -> u64 {
    ((table >> 12u64) << 10u64) | 1u64
}

/// A leaf entry naming the page at `paddr`, with `flags` and V, A, D set.
pub open spec fn leaf_pte(paddr: u64, flags: u64) -> u64 {
    ((paddr >> 12u64) << 10u64) | (flags | 0xC1u64)
}

#[derive(Clone, Copy)]
struct Pte(u64);

proof fn lemma_flag_bits(flags: u64)
    by (bit_vector)
    ensures
        (2u64 | 4u64 | 8u64) == 0xEu64,
        ((flags | 1u64) | 0x40u64) | 0x80u64 == flags | 0xC1u64,
        (flags | 0xC1u64) & 0xC1u64 == 0xC1u64,
{
}

impl Pte {
    fn empty() -> (p: Self)
        ensures
            p.0 == 0,
    {
        Pte(0)
    }

    fn is_valid(self) -> (r: bool)
        ensures
            r == pte_valid(self.0),
    {
        self.0 & PteFlags::VALID().0 != 0
    }

    fn is_leaf(self) -> (r: bool)
        ensures
            r == pte_leaf(self.0),
    {
        proof {
            lemma_flag_bits(0);
        }
        self.0 & (PteFlags::READ().0 | PteFlags::WRITE().0 | PteFlags::EXECUTE().0) != 0
    }

    fn ppn(self) -> (r: u64)
        ensures
            r == pte_ppn(self.0),
    {
        (self.0 >> 10u64) & 0x0FFF_FFFF_FFFFu64
    }

    fn branch(table_paddr: u64) -> (p: Self)
        ensures
            p.0 == branch_pte(table_paddr),
    {
        Pte(((table_paddr >> 12u64) << 10u64) | PteFlags::VALID().0)
    }

    /// Sets A (accessed) and D (dirty) unconditionally, not just V: hardware faults
    /// on `A = 0` (or a store to `D = 0`) unless it manages A/D itself.
    fn leaf(paddr: u64, flags: PteFlags) -> (p: Self)
        ensures
            p.0 == leaf_pte(paddr, flags.bits()),
            p.0 & 0xC1u64 == 0xC1u64,
    {
        proof {
            lemma_flag_bits(flags.bits());
            lemma_leaf_has_v_a_d(paddr, flags.bits());
        }
        let flags = flags.union(PteFlags::VALID()).union(PteFlags::ACCESSED()).union(PteFlags::DIRTY());
        Pte(((paddr >> 12u64) << 10u64) | flags.0)
    }
}

proof fn lemma_leaf_has_v_a_d(paddr: u64, flags: u64)
    by (bit_vector)
    ensures
        (((paddr >> 12u64) << 10u64) | (flags | 0xC1u64)) & 0xC1u64 == 0xC1u64,
{
}

/// The contents of a table nobody wrote: 512 invalid entries.
pub open spec fn zero_table() -> Seq<u64> {
    Seq::new(ENTRIES_PER_TABLE as nat, |i: int| 0u64)
}

/// One page-table level: 512 eight-byte entries, exactly one 4 KiB page.
pub struct PageTable {
    entries: [Pte; ENTRIES_PER_TABLE],
}

impl View for PageTable {
    type V = Seq<u64>;

    closed spec fn view(&self) -> Seq<u64> {
        self.entries@.map_values(|p: Pte| p.0)
    }
}

impl PageTable {
    pub fn empty() -> (t: Self)
        ensures
            t@ == zero_table(),
    {
        let t = PageTable { entries: [Pte::empty(); ENTRIES_PER_TABLE] };
        assert(t@ =~= zero_table());
        t
    }
}

impl Default for PageTable {
    fn default() -> (t: Self)
        ensures
            t@ == zero_table(),
    {
        Self::empty()
    }
}

/// The table at physical address `t`.
pub open spec fn table_at(m: Map<u64, Seq<u64>>, t: u64) -> Seq<u64> {
    if m.contains_key(t) {
        m[t]
    } else {
        zero_table()
    }
}

/// Entry `i` of the table at physical address `t`.
pub open spec fn word_at(m: Map<u64, Seq<u64>>, t: u64, i: int) -> u64 {
    table_at(m, t)[i]
}

/// Memory after entry `i` of the table at `t` is set to `w`.
pub open spec fn with_word(m: Map<u64, Seq<u64>>, t: u64, i: int, w: u64) -> Map<u64, Seq<u64>> {
    m.insert(t, table_at(m, t).update(i, w))
}

/// One 4 KiB frame of physical memory holding a table, and its physical address.
struct Frame {
    addr: u64,
    table: PageTable,
}

/// The memory that a list of frames holds: a later frame at an address hides an
/// earlier one.
spec fn frames_map(s: Seq<Frame>) -> Map<u64, Seq<u64>>
    decreases s.len(),
{
    if s.len() == 0 {
        Map::empty()
    } else {
        frames_map(s.drop_last()).insert(s.last().addr, s.last().table@)
    }
}

/// `i` is the last frame of `s` at address `a`.
spec fn last_at(s: Seq<Frame>, i: int, a: u64) -> bool {
    &&& 0 <= i < s.len()
    &&& s[i].addr == a
    &&& forall|j: int| i < j < s.len() ==> #[trigger] s[j].addr != a
}

proof fn lemma_frames_map_last(s: Seq<Frame>, i: int, a: u64)
    requires
        last_at(s, i, a),
    ensures
        frames_map(s).contains_key(a),
        frames_map(s)[a] == s[i].table@,
    decreases s.len(),
{
    if i < s.len() - 1 {
        assert(s.drop_last()[i] == s[i]);
        lemma_frames_map_last(s.drop_last(), i, a);
    }
}

proof fn lemma_frames_map_absent(s: Seq<Frame>, a: u64)
    requires
        forall|j: int| 0 <= j < s.len() ==> #[trigger] s[j].addr != a,
    ensures
        !frames_map(s).contains_key(a),
    decreases s.len(),
{
    if s.len() > 0 {
        lemma_frames_map_absent(s.drop_last(), a);
    }
}

proof fn lemma_frames_map_update(s: Seq<Frame>, i: int, f: Frame)
    requires
        last_at(s, i, f.addr),
    ensures
        frames_map(s.update(i, f)) == frames_map(s).insert(f.addr, f.table@),
    decreases s.len(),
{
    let u = s.update(i, f);
    if i == s.len() - 1 {
        assert(u.drop_last() =~= s.drop_last());
        assert(frames_map(u) =~= frames_map(s).insert(f.addr, f.table@));
    } else {
        assert(u.drop_last() =~= s.drop_last().update(i, f));
        lemma_frames_map_update(s.drop_last(), i, f);
        assert(frames_map(u) =~= frames_map(s).insert(f.addr, f.table@));
    }
}

proof fn lemma_frames_map_sized(s: Seq<Frame>)
    ensures
        forall|t: u64| #[trigger] frames_map(s).contains_key(t) ==> frames_map(s)[t].len() == ENTRIES_PER_TABLE,
    decreases s.len(),
{
    if s.len() > 0 {
        lemma_frames_map_sized(s.drop_last());
        let t = s.last().table;
        assert(t.entries@.len() == ENTRIES_PER_TABLE);
        assert(t@.len() == ENTRIES_PER_TABLE);
        assert forall|a: u64| #[trigger] frames_map(s).contains_key(a) implies frames_map(s)[a].len()
            == ENTRIES_PER_TABLE by {
            if a != s.last().addr {
                assert(frames_map(s.drop_last()).contains_key(a));
            }
        }
    }
}

/// Physical memory holding page tables, as 4 KiB frames keyed by physical address.
pub struct PhysMemory {
    frames: Vec<Frame>,
}

impl View for PhysMemory {
    type V = Map<u64, Seq<u64>>;

    closed spec fn view(&self) -> Map<u64, Seq<u64>> {
        frames_map(self.frames@)
    }
}

impl PhysMemory {
    /// Memory in which every frame reads as zero.
    pub fn new() -> (m: Self)
        ensures
            m@ == Map::<u64, Seq<u64>>::empty(),
    {
        PhysMemory { frames: Vec::new() }
    }

    /// The last frame held at address `table`, if any.
    fn find(&self, table: u64) -> (r: Option<usize>)
        ensures
            match r {
                Some(i) => last_at(self.frames@, i as int, table),
                None => forall|j: int| 0 <= j < self.frames@.len() ==> #[trigger] self.frames@[j].addr != table,
            },
    {
        let mut i = self.frames.len();
        while i > 0
            invariant
                i <= self.frames@.len(),
                forall|j: int| i <= j < self.frames@.len() ==> #[trigger] self.frames@[j].addr != table,
            decreases i,
        {
            i = i - 1;
            if self.frames[i].addr == table {
                return Some(i);
            }
        }
        None
    }

    /// Entry `index` of the table at physical address `table`.
    pub fn read_entry(&self, table: u64, index: usize) -> (w: u64)
        requires
            index < ENTRIES_PER_TABLE,
        ensures
            w == word_at(self@, table, index as int),
    {
        match self.find(table) {
            Some(i) => {
                proof {
                    lemma_frames_map_last(self.frames@, i as int, table);
                }
                self.frames[i].table.entries[index].0
            },
            None => {
                proof {
                    lemma_frames_map_absent(self.frames@, table);
                }
                0
            },
        }
    }

    /// Sets entry `index` of the table at physical address `table` to `w`.
    pub fn write_entry(&mut self, table: u64, index: usize, w: u64)
        requires
            index < ENTRIES_PER_TABLE,
        ensures
            final(self)@ == with_word(old(self)@, table, index as int, w),
    {
        match self.find(table) {
            Some(i) => {
                proof {
                    lemma_frames_map_last(self.frames@, i as int, table);
                }
                let mut f = self.frames.remove(i);
                let ghost before = f.table@;
                f.table.entries[index] = Pte(w);
                assert(f.table@ =~= before.update(index as int, w));
                let ghost f2 = f;
                self.frames.insert(i, f);
                proof {
                    assert(self.frames@ =~= old(self).frames@.update(i as int, f2));
                    lemma_frames_map_update(old(self).frames@, i as int, f2);
                }
            },
            None => {
                proof {
                    lemma_frames_map_absent(self.frames@, table);
                }
                let mut t = PageTable::empty();
                t.entries[index] = Pte(w);
                assert(t@ =~= zero_table().update(index as int, w));
                let ghost f2 = Frame { addr: table, table: t };
                self.frames.push(Frame { addr: table, table: t });
                proof {
                    assert(self.frames@.drop_last() =~= old(self).frames@);
                }
            },
        }
        assert(self@ =~= with_word(old(self)@, table, index as int, w));
    }
}

/// The virtual page number that indexes the level-`level` table (2 = root).
pub open spec fn vpn_of(v: u64, level: int) -> int {
    if level == 2 {
        ((v >> 30u64) & 0x1FFu64) as int
    } else if level == 1 {
        ((v >> 21u64) & 0x1FFu64) as int
    } else {
        ((v >> 12u64) & 0x1FFu64) as int
    }
}

proof fn lemma_index_bound(x: u64)
    by (bit_vector)
    ensures
        x & 0x1FFu64 < 512,
{
}

fn vpn(vaddr: u64, level: usize) -> (index: usize)
    requires
        level < LEVELS,
    ensures
        index == vpn_of(vaddr, level as int),
        index < ENTRIES_PER_TABLE,
{
    let shift = (PAGE_SHIFT + 9 * level) as u64;
    proof {
        lemma_index_bound(vaddr >> shift);
    }
    ((vaddr >> shift) & 0x1FFu64) as usize
}

/// Address of the table that the walk for `v` reads at `level` (2 = the root).
pub open spec fn walk_table(m: Map<u64, Seq<u64>>, root: u64, v: u64, level: int) -> u64 {
    let t1 = pte_target(word_at(m, root, vpn_of(v, 2)));
    let t0 = pte_target(word_at(m, t1, vpn_of(v, 1)));
    if level >= 2 {
        root
    } else if level == 1 {
        t1
    } else {
        t0
    }
}

/// The entry that the walk for `v` reads at `level`.
pub open spec fn walk_entry(m: Map<u64, Seq<u64>>, root: u64, v: u64, level: int) -> u64 {
    word_at(m, walk_table(m, root, v, level), vpn_of(v, level))
}

/// The offset bits of `v` inside a leaf at `level`: 1 GiB, 2 MiB or 4 KiB pages.
pub open spec fn offset_mask(level: int) -> u64 {
    if level == 2 {
        0x3FFF_FFFFu64
    } else if level == 1 {
        0x1F_FFFFu64
    } else {
        0xFFFu64
    }
}

/// Where the walk for `v`, continued from `level` down, ends: the mapped physical
/// address, or `None` at an invalid entry (or a non-leaf at the last level).
pub open spec fn walk_from(m: Map<u64, Seq<u64>>, root: u64, v: u64, level: int) -> Option<u64> {
    let e0 = walk_entry(m, root, v, 0);
    let r0 = if pte_valid(e0) && pte_leaf(e0) {
        Some(pte_target(e0) | (v & 0xFFFu64))
    } else {
        None
    };
    let e1 = walk_entry(m, root, v, 1);
    let r1 = if !pte_valid(e1) {
        None
    } else if pte_leaf(e1) {
        Some(pte_target(e1) | (v & offset_mask(1)))
    } else {
        r0
    };
    let e2 = walk_entry(m, root, v, 2);
    let r2 = if !pte_valid(e2) {
        None
    } else if pte_leaf(e2) {
        Some(pte_target(e2) | (v & offset_mask(2)))
    } else {
        r1
    };
    if level >= 2 {
        r2
    } else if level == 1 {
        r1
    } else {
        r0
    }
}

/// The physical address that the tables under `root` map `v` to.
pub open spec fn translation(m: Map<u64, Seq<u64>>, root: u64, v: u64) -> Option<u64> {
    walk_from(m, root, v, 2)
}

/// The walk for `v` spelled out level by level: a leaf in the root maps a 1 GiB page
/// (30 offset bits of `v`), a leaf one level down a 2 MiB page (21 bits), a leaf at
/// the last level a 4 KiB page (12 bits); an invalid entry, or a branch at the last
/// level, maps nothing.
pub open spec fn walk_by_level(m: Map<u64, Seq<u64>>, root: u64, v: u64) -> Option<u64> {
    let e2 = word_at(m, root, vpn_of(v, 2));
    let e1 = word_at(m, pte_target(e2), vpn_of(v, 1));
    let e0 = word_at(m, pte_target(e1), vpn_of(v, 0));
    if !pte_valid(e2) {
        None
    } else if pte_leaf(e2) {
        Some(pte_target(e2) | (v & 0x3FFF_FFFFu64))
    } else if !pte_valid(e1) {
        None
    } else if pte_leaf(e1) {
        Some(pte_target(e1) | (v & 0x1F_FFFFu64))
    } else if pte_valid(e0) && pte_leaf(e0) {
        Some(pte_target(e0) | (v & 0xFFFu64))
    } else {
        None
    }
}

/// Translation stops at the first leaf on the walk and keeps as many offset bits of
/// the address as the leaf's page has: 30 in the root, 21 one level down, 12 at the
/// last level.
pub proof fn lemma_translation_by_level(m: Map<u64, Seq<u64>>, root: u64, v: u64)
    ensures
        translation(m, root, v) == walk_by_level(m, root, v),
{
}

proof fn lemma_gigapage_offset(t: u64, v: u64)
    by (bit_vector)
    requires
        t % 0x4000_0000 == 0,
    ensures
        t | (v & 0x3FFF_FFFFu64) == t + v % 0x4000_0000,
{
}

/// A leaf in the root slot of `v` maps the whole 1 GiB page around `v`: every address
/// with the same root slot translates to the leaf's 1 GiB-aligned page plus the
/// address's 30-bit offset.
pub proof fn lemma_gigapage_translation(m: Map<u64, Seq<u64>>, root: u64, v: u64, w: u64)
    requires
        pte_valid(word_at(m, root, vpn_of(v, 2))),
        pte_leaf(word_at(m, root, vpn_of(v, 2))),
        pte_target(word_at(m, root, vpn_of(v, 2))) % 0x4000_0000 == 0,
        vpn_of(w, 2) == vpn_of(v, 2),
    ensures
        translation(m, root, w) == Some((pte_target(word_at(m, root, vpn_of(v, 2))) + w % 0x4000_0000) as u64),
{
    lemma_translation_by_level(m, root, w);
    lemma_gigapage_offset(pte_target(word_at(m, root, vpn_of(v, 2))), w);
}

proof fn lemma_small_page_offsets(t: u64, v: u64)
    by (bit_vector)
    ensures
        t % 0x20_0000 == 0 ==> t | (v & 0x1F_FFFFu64) == t + v % 0x20_0000,
        t % 0x1000 == 0 ==> t | (v & 0xFFFu64) == t + v % 0x1000,
        (t << 12u64) % 0x1000 == 0,
{
}

/// A leaf one level below the root maps the whole 2 MiB page around `v`: every
/// address with the same two upper page numbers translates to the leaf's 2
/// MiB-aligned page plus the address's 21-bit offset.
pub proof fn lemma_megapage_translation(m: Map<u64, Seq<u64>>, root: u64, v: u64, w: u64)
    requires
        is_branch(word_at(m, root, vpn_of(v, 2))),
        pte_valid(walk_entry(m, root, v, 1)),
        pte_leaf(walk_entry(m, root, v, 1)),
        pte_target(walk_entry(m, root, v, 1)) % 0x20_0000 == 0,
        vpn_of(w, 2) == vpn_of(v, 2),
        vpn_of(w, 1) == vpn_of(v, 1),
    ensures
        translation(m, root, w) == Some((pte_target(walk_entry(m, root, v, 1)) + w % 0x20_0000) as u64),
{
    lemma_translation_by_level(m, root, w);
    lemma_small_page_offsets(pte_target(walk_entry(m, root, v, 1)), w);
}

/// A leaf at the last level maps the 4 KiB page around `v`: every address in that
/// page translates to the leaf's page plus the address's 12-bit offset.
pub proof fn lemma_page_translation(m: Map<u64, Seq<u64>>, root: u64, v: u64, w: u64)
    requires
        is_branch(word_at(m, root, vpn_of(v, 2))),
        is_branch(walk_entry(m, root, v, 1)),
        pte_valid(walk_entry(m, root, v, 0)),
        pte_leaf(walk_entry(m, root, v, 0)),
        vpn_of(w, 2) == vpn_of(v, 2),
        vpn_of(w, 1) == vpn_of(v, 1),
        vpn_of(w, 0) == vpn_of(v, 0),
    ensures
        translation(m, root, w) == Some((pte_target(walk_entry(m, root, v, 0)) + w % 0x1000) as u64),
{
    lemma_translation_by_level(m, root, w);
    lemma_small_page_offsets(pte_ppn(walk_entry(m, root, v, 0)), w);
    lemma_small_page_offsets(pte_target(walk_entry(m, root, v, 0)), w);
}

/// An optional physical address as a machine word.
pub open spec fn to_usize(a: Option<u64>) -> Option<usize> {
    match a {
        Some(x) => Some(x as usize),
        None => None,
    }
}

proof fn lemma_page_sizes()
    by (bit_vector)
    ensures
        (1u64 << 30u64) - 1 == 0x3FFF_FFFFu64,
        (1u64 << 21u64) - 1 == 0x1F_FFFFu64,
{
}

/// Walks `root` for `vaddr`, returning its mapped physical address if present. Stops
/// at whichever level holds a leaf, so 4 KiB pages and megapages both translate.
pub fn translate(mem: &PhysMemory, root: usize, vaddr: usize) -> (r: Option<usize>)
    ensures
        r == to_usize(translation(mem@, root as u64, vaddr as u64)),
        r == to_usize(walk_by_level(mem@, root as u64, vaddr as u64)),
{
    proof {
        lemma_translation_by_level(mem@, root as u64, vaddr as u64);
    }
    let ghost m = mem@;
    let ghost rt = root as u64;
    let v = vaddr as u64;
    let mut table: u64 = root as u64;
    let mut level: usize = LEVELS - 1;
    while level > 0
        invariant
            level < LEVELS,
            m == mem@,
            rt == root as u64,
            v == vaddr as u64,
            table == walk_table(m, rt, v, level as int),
            translation(m, rt, v) == walk_from(m, rt, v, level as int),
        decreases level,
    {
        let index = vpn(v, level);
        let pte = Pte(mem.read_entry(table, index));
        if !pte.is_valid() {
            return None;
        }
        if pte.is_leaf() {
            let page_size: u64 = 1u64 << (PAGE_SHIFT + 9 * level) as u64;
            proof {
                lemma_page_sizes();
            }
            return Some(((pte.ppn() << PAGE_SHIFT as u64) | (v & (page_size - 1))) as usize);
        }
        table = pte.ppn() << PAGE_SHIFT as u64;
        level = level - 1;
    }
    let index = vpn(v, 0);
    let pte = Pte(mem.read_entry(table, index));
    if !pte.is_valid() || !pte.is_leaf() {
        return None;
    }
    Some(((pte.ppn() << PAGE_SHIFT as u64) | (v & (PAGE_SIZE as u64 - 1))) as usize)
}

/// One step of `map`'s walk at entry `index` of `table`: an invalid entry becomes a
/// branch to the last free frame, which is taken off the list. Gives the memory,
/// the free frames and the next table.
pub open spec fn descend(m: Map<u64, Seq<u64>>, free: Seq<usize>, table: u64, index: int) -> (
    Map<u64, Seq<u64>>,
    Seq<usize>,
    u64,
) {
    let e = word_at(m, table, index);
    if pte_valid(e) {
        (m, free, pte_target(e))
    } else {
        let b = branch_pte(free.last() as u64);
        (with_word(m, table, index, b), free.drop_last(), pte_target(b))
    }
}

/// The memory, free frames and table of `map`'s walk for `v` when it reaches `level`.
pub open spec fn map_walk(m: Map<u64, Seq<u64>>, free: Seq<usize>, root: u64, v: u64, level: int) -> (
    Map<u64, Seq<u64>>,
    Seq<usize>,
    u64,
) {
    let s1 = descend(m, free, root, vpn_of(v, 2));
    let s0 = descend(s1.0, s1.1, s1.2, vpn_of(v, 1));
    if level >= 2 {
        (m, free, root)
    } else if level == 1 {
        s1
    } else {
        s0
    }
}

/// The walk step at `level` either finds a valid entry or has a free frame to take.
pub open spec fn has_frame_at(m: Map<u64, Seq<u64>>, free: Seq<usize>, root: u64, v: u64, level: int) -> bool {
    let s = map_walk(m, free, root, v, level);
    pte_valid(word_at(s.0, s.2, vpn_of(v, level))) || s.1.len() > 0
}

/// Memory and free frames after the walk down to `level` and a write of `leaf` into
/// the slot it reaches there.
pub open spec fn mapped(m: Map<u64, Seq<u64>>, free: Seq<usize>, root: u64, v: u64, level: int, leaf: u64) -> (
    Map<u64, Seq<u64>>,
    Seq<usize>,
) {
    let s = map_walk(m, free, root, v, level);
    (with_word(s.0, s.2, vpn_of(v, level), leaf), s.1)
}

/// Maps one 4 KiB page: `vaddr` to `paddr` with `flags`, walking the tables under
/// `root` and making each invalid intermediate entry a branch to a frame taken from
/// the end of `free_frames` (such a frame should be zeroed and not in use: its
/// contents are used as the new table as they are).
pub fn map(
    mem: &mut PhysMemory,
    root: usize,
    vaddr: usize,
    paddr: usize,
    flags: PteFlags,
    free_frames: &mut Vec<usize>,
)
    requires
        has_frame_at(old(mem)@, old(free_frames)@, root as u64, vaddr as u64, 2),
        has_frame_at(old(mem)@, old(free_frames)@, root as u64, vaddr as u64, 1),
    ensures
        (final(mem)@, final(free_frames)@) == mapped(
            old(mem)@,
            old(free_frames)@,
            root as u64,
            vaddr as u64,
            0,
            leaf_pte(paddr as u64, flags.bits()),
        ),
        ({
            let e = word_at(
                final(mem)@,
                map_walk(old(mem)@, old(free_frames)@, root as u64, vaddr as u64, 0).2,
                vpn_of(vaddr as u64, 0),
            );
            &&& e & 0x3FFu64 == flags.bits() | 0xC1u64
            &&& (e >> 10u64) & 0x0FFF_FFFF_FFFFu64 == ((paddr as u64) >> 12u64) & 0x0FFF_FFFF_FFFFu64
        }),
{
    let ghost m0 = mem@;
    let ghost f0 = free_frames@;
    let ghost rt = root as u64;
    proof {
        mem.lemma_frames_sized();
    }
    let v = vaddr as u64;
    let mut table: u64 = root as u64;
    let mut level: usize = LEVELS - 1;
    while level > 0
        invariant
            level < LEVELS,
            rt == root as u64,
            v == vaddr as u64,
            (mem@, free_frames@, table) == map_walk(m0, f0, rt, v, level as int),
            has_frame_at(m0, f0, rt, v, 2),
            has_frame_at(m0, f0, rt, v, 1),
        decreases level,
    {
        let index = vpn(v, level);
        let mut pte = Pte(mem.read_entry(table, index));
        if !pte.is_valid() {
            let new_table = free_frames.pop().unwrap();
            pte = Pte::branch(new_table as u64);
            mem.write_entry(table, index, pte.0);
        }
        table = pte.ppn() << PAGE_SHIFT as u64;
        level = level - 1;
    }
    let index = vpn(v, 0);
    mem.write_entry(table, index, Pte::leaf(paddr as u64, flags).0);
    proof {
        use_type_invariant(&flags);
        lemma_written_leaf(m0, f0, rt, v, 0, paddr as u64, flags.bits());
    }
}

/// Maps one 2 MiB megapage: `vaddr` to `paddr` (both `MEGAPAGE_SIZE`-aligned) with
/// `flags`, as a leaf at level 1: the walk makes only one branch hop (root to level
/// 1) and never touches level 0.
pub fn map_megapage(
    mem: &mut PhysMemory,
    root: usize,
    vaddr: usize,
    paddr: usize,
    flags: PteFlags,
    free_frames: &mut Vec<usize>,
)
    requires
        vaddr % MEGAPAGE_SIZE == 0,
        paddr % MEGAPAGE_SIZE == 0,
        has_frame_at(old(mem)@, old(free_frames)@, root as u64, vaddr as u64, 2),
    ensures
        (final(mem)@, final(free_frames)@) == mapped(
            old(mem)@,
            old(free_frames)@,
            root as u64,
            vaddr as u64,
            1,
            leaf_pte(paddr as u64, flags.bits()),
        ),
        ({
            let e = word_at(
                final(mem)@,
                map_walk(old(mem)@, old(free_frames)@, root as u64, vaddr as u64, 1).2,
                vpn_of(vaddr as u64, 1),
            );
            &&& e & 0x3FFu64 == flags.bits() | 0xC1u64
            &&& (e >> 10u64) & 0x0FFF_FFFF_FFFFu64 == ((paddr as u64) >> 12u64) & 0x0FFF_FFFF_FFFFu64
        }),
{
    proof {
        mem.lemma_frames_sized();
    }
    let v = vaddr as u64;
    let root_table = root as u64;
    let l2_index = vpn(v, 2);
    let mut l2_pte = Pte(mem.read_entry(root_table, l2_index));
    if !l2_pte.is_valid() {
        let new_table = free_frames.pop().unwrap();
        l2_pte = Pte::branch(new_table as u64);
        mem.write_entry(root_table, l2_index, l2_pte.0);
    }
    let l1_table = l2_pte.ppn() << PAGE_SHIFT as u64;
    let l1_index = vpn(v, 1);
    mem.write_entry(l1_table, l1_index, Pte::leaf(paddr as u64, flags).0);
    proof {
        use_type_invariant(&flags);
        lemma_written_leaf(old(mem)@, old(free_frames)@, root as u64, v, 1, paddr as u64, flags.bits());
    }
}

/// Every table in `m` has 512 entries, as every frame of a [`PhysMemory`] does.
pub open spec fn frames_sized(m: Map<u64, Seq<u64>>) -> bool {
    forall|t: u64| #[trigger] m.contains_key(t) ==> m[t].len() == ENTRIES_PER_TABLE
}

impl PhysMemory {
    /// Every frame of a memory holds 512 entries.
    pub proof fn lemma_frames_sized(&self)
        ensures
            frames_sized(self@),
    {
        lemma_frames_map_sized(self.frames@);
    }
}

proof fn lemma_word_at_with_word(m: Map<u64, Seq<u64>>, t: u64, i: int, w: u64, t2: u64, j: int)
    requires
        frames_sized(m),
        0 <= i < ENTRIES_PER_TABLE,
        0 <= j < ENTRIES_PER_TABLE,
    ensures
        frames_sized(with_word(m, t, i, w)),
        word_at(with_word(m, t, i, w), t2, j) == if t == t2 && i == j {
            w
        } else {
            word_at(m, t2, j)
        },
{
}

/// Page numbers index a 512-entry table.
pub proof fn lemma_vpn_bounds(v: u64)
    ensures
        0 <= vpn_of(v, 2) < ENTRIES_PER_TABLE,
        0 <= vpn_of(v, 1) < ENTRIES_PER_TABLE,
        0 <= vpn_of(v, 0) < ENTRIES_PER_TABLE,
{
    lemma_index_bound(v >> 30u64);
    lemma_index_bound(v >> 21u64);
    lemma_index_bound(v >> 12u64);
}

/// A branch entry is valid and not a leaf.
pub proof fn lemma_branch_is_table_pointer(f: u64)
    by (bit_vector)
    ensures
        ((((f >> 12u64) << 10u64) | 1u64) & 1u64) != 0,
        ((((f >> 12u64) << 10u64) | 1u64) & 0xEu64) == 0,
{
}

proof fn lemma_leaf_page(p: u64, fl: u64, v: u64)
    by (bit_vector)
    requires
        p < 0x100_0000_0000_0000u64,
        fl < 0x400u64,
        fl & 0xEu64 != 0,
    ensures
        ((((p >> 12u64) << 10u64) | (fl | 0xC1u64)) & 1u64) != 0,
        ((((p >> 12u64) << 10u64) | (fl | 0xC1u64)) & 0xEu64) != 0,
        ((((((p >> 12u64) << 10u64) | (fl | 0xC1u64)) >> 10u64) & 0x0FFF_FFFF_FFFFu64) << 12u64)
            | (v & 0xFFFu64) == (p - p % 4096) + v % 4096,
{
}

proof fn lemma_leaf_megapage(p: u64, fl: u64, v: u64)
    by (bit_vector)
    requires
        p < 0x100_0000_0000_0000u64,
        p % 0x20_0000 == 0,
        fl < 0x400u64,
    ensures
        ((((((p >> 12u64) << 10u64) | (fl | 0xC1u64)) >> 10u64) & 0x0FFF_FFFF_FFFFu64) << 12u64)
            | (v & 0x1F_FFFFu64) == p + v % 0x20_0000,
{
}

/// A leaf that `map` or `map_megapage` writes is valid, accessed and dirty, whatever
/// flags it was given.
pub proof fn lemma_leaf_valid_accessed_dirty(paddr: u64, flags: u64)
    ensures
        pte_valid(leaf_pte(paddr, flags)),
        leaf_pte(paddr, flags) & 0xC0u64 == 0xC0u64,
{
    lemma_leaf_has_v_a_d(paddr, flags);
    lemma_v_a_d_bits(leaf_pte(paddr, flags));
}

proof fn lemma_v_a_d_bits(e: u64)
    by (bit_vector)
    requires
        e & 0xC1u64 == 0xC1u64,
    ensures
        e & 1u64 != 0,
        e & 0xC0u64 == 0xC0u64,
{
}

/// Tables whose root reads as all zero map nothing.
pub proof fn lemma_empty_root_translates_nothing(m: Map<u64, Seq<u64>>, root: u64, v: u64)
    requires
        table_at(m, root) == zero_table(),
    ensures
        translation(m, root, v) is None,
{
    lemma_vpn_bounds(v);
    assert(walk_entry(m, root, v, 2) == 0);
    lemma_zero_invalid();
}

/// An all-zero entry is invalid.
pub proof fn lemma_zero_invalid()
    by (bit_vector)
    ensures
        0u64 & 1u64 == 0,
{
}

/// The walk for `v` meets no leaf in the slots `map` passes through above `level`.
pub open spec fn no_leaf_above(m: Map<u64, Seq<u64>>, free: Seq<usize>, root: u64, v: u64, level: int) -> bool {
    forall|l: int|
        level < l <= 2 ==> {
            let s = #[trigger] map_walk(m, free, root, v, l);
            let e = word_at(s.0, s.2, vpn_of(v, l));
            pte_valid(e) ==> !pte_leaf(e)
        }
}

/// The slot (table and index) that `map`'s walk for `v` uses at `level`.
pub open spec fn walk_slot(m: Map<u64, Seq<u64>>, free: Seq<usize>, root: u64, v: u64, level: int) -> (u64, int) {
    (map_walk(m, free, root, v, level).2, vpn_of(v, level))
}

/// Mapping the 4 KiB page of `vaddr` to `paddr` makes every address whose page
/// numbers equal `vaddr`'s translate to the same offset in `paddr`'s page. It holds
/// where the walk passes no existing leaf and its three slots are distinct (a table
/// that points at itself can make `map` overwrite its own branch).
pub proof fn lemma_map_then_translate(
    m: Map<u64, Seq<u64>>,
    free: Seq<usize>,
    root: u64,
    vaddr: u64,
    paddr: u64,
    flags: u64,
    v: u64,
)
    requires
        frames_sized(m),
        has_frame_at(m, free, root, vaddr, 2),
        has_frame_at(m, free, root, vaddr, 1),
        no_leaf_above(m, free, root, vaddr, 0),
        walk_slot(m, free, root, vaddr, 1) != walk_slot(m, free, root, vaddr, 2),
        walk_slot(m, free, root, vaddr, 0) != walk_slot(m, free, root, vaddr, 2),
        walk_slot(m, free, root, vaddr, 0) != walk_slot(m, free, root, vaddr, 1),
        flags < 0x400,
        flags & 0xEu64 != 0,
        paddr < 0x100_0000_0000_0000,
        vpn_of(v, 2) == vpn_of(vaddr, 2),
        vpn_of(v, 1) == vpn_of(vaddr, 1),
        vpn_of(v, 0) == vpn_of(vaddr, 0),
    ensures
        translation(mapped(m, free, root, vaddr, 0, leaf_pte(paddr, flags)).0, root, v) == Some(
            (paddr - paddr % 4096 + v % 4096) as u64,
        ),
{
    lemma_vpn_bounds(vaddr);
    let leaf = leaf_pte(paddr, flags);
    let s1 = map_walk(m, free, root, vaddr, 1);
    let s0 = map_walk(m, free, root, vaddr, 0);
    let m2 = mapped(m, free, root, vaddr, 0, leaf).0;
    lemma_walk_after_map(m, free, root, vaddr, leaf);
    lemma_leaf_page(paddr, flags, v);
    assert(walk_table(m2, root, v, 1) == s1.2);
    assert(walk_table(m2, root, v, 0) == s0.2);
    assert(walk_entry(m2, root, v, 0) == leaf);
    assert(walk_from(m2, root, v, 0) == Some((paddr - paddr % 4096 + v % 4096) as u64));
    assert(walk_from(m2, root, v, 1) == walk_from(m2, root, v, 0));
}

/// After `map`, the walk for `vaddr` passes two valid branches to the tables it
/// used and finds `leaf` in the last one.
proof fn lemma_walk_after_map(m: Map<u64, Seq<u64>>, free: Seq<usize>, root: u64, vaddr: u64, leaf: u64)
    requires
        frames_sized(m),
        has_frame_at(m, free, root, vaddr, 2),
        has_frame_at(m, free, root, vaddr, 1),
        no_leaf_above(m, free, root, vaddr, 0),
        walk_slot(m, free, root, vaddr, 1) != walk_slot(m, free, root, vaddr, 2),
        walk_slot(m, free, root, vaddr, 0) != walk_slot(m, free, root, vaddr, 2),
        walk_slot(m, free, root, vaddr, 0) != walk_slot(m, free, root, vaddr, 1),
    ensures
        ({
            let s1 = map_walk(m, free, root, vaddr, 1);
            let s0 = map_walk(m, free, root, vaddr, 0);
            let m2 = mapped(m, free, root, vaddr, 0, leaf).0;
            let e2 = word_at(m2, root, vpn_of(vaddr, 2));
            let e1 = word_at(m2, s1.2, vpn_of(vaddr, 1));
            &&& frames_sized(m2)
            &&& pte_valid(e2) && !pte_leaf(e2) && pte_target(e2) == s1.2
            &&& pte_valid(e1) && !pte_leaf(e1) && pte_target(e1) == s0.2
            &&& word_at(m2, s0.2, vpn_of(vaddr, 0)) == leaf
            &&& m2.contains_key(s0.2)
        }),
{
    lemma_vpn_bounds(vaddr);
    let s1 = map_walk(m, free, root, vaddr, 1);
    let s0 = map_walk(m, free, root, vaddr, 0);
    let i2 = vpn_of(vaddr, 2);
    let i1 = vpn_of(vaddr, 1);
    let i0 = vpn_of(vaddr, 0);
    assert(map_walk(m, free, root, vaddr, 2) == (m, free, root));
    let e2 = word_at(m, root, i2);
    if !pte_valid(e2) {
        lemma_branch_is_table_pointer(free.last() as u64);
        lemma_word_at_with_word(m, root, i2, branch_pte(free.last() as u64), root, i2);
    }
    assert(pte_valid(word_at(s1.0, root, i2)) && !pte_leaf(word_at(s1.0, root, i2)));
    assert(pte_target(word_at(s1.0, root, i2)) == s1.2);
    assert(frames_sized(s1.0));
    let e1 = word_at(s1.0, s1.2, i1);
    if !pte_valid(e1) {
        lemma_branch_is_table_pointer(s1.1.last() as u64);
        lemma_word_at_with_word(s1.0, s1.2, i1, branch_pte(s1.1.last() as u64), s1.2, i1);
        lemma_word_at_with_word(s1.0, s1.2, i1, branch_pte(s1.1.last() as u64), root, i2);
    }
    assert(pte_valid(word_at(s0.0, s1.2, i1)) && !pte_leaf(word_at(s0.0, s1.2, i1)));
    assert(pte_target(word_at(s0.0, s1.2, i1)) == s0.2);
    assert(word_at(s0.0, root, i2) == word_at(s1.0, root, i2));
    assert(frames_sized(s0.0));
    lemma_word_at_with_word(s0.0, s0.2, i0, leaf, root, i2);
    lemma_word_at_with_word(s0.0, s0.2, i0, leaf, s1.2, i1);
    lemma_word_at_with_word(s0.0, s0.2, i0, leaf, s0.2, i0);
}

/// A second identical `map` takes no frame and changes no entry. It holds where the
/// first one's walk passed no existing leaf and its three slots were distinct.
pub proof fn lemma_map_again_changes_nothing(
    m: Map<u64, Seq<u64>>,
    free: Seq<usize>,
    root: u64,
    vaddr: u64,
    leaf: u64,
)
    requires
        frames_sized(m),
        has_frame_at(m, free, root, vaddr, 2),
        has_frame_at(m, free, root, vaddr, 1),
        no_leaf_above(m, free, root, vaddr, 0),
        walk_slot(m, free, root, vaddr, 1) != walk_slot(m, free, root, vaddr, 2),
        walk_slot(m, free, root, vaddr, 0) != walk_slot(m, free, root, vaddr, 2),
        walk_slot(m, free, root, vaddr, 0) != walk_slot(m, free, root, vaddr, 1),
    ensures
        ({
            let first = mapped(m, free, root, vaddr, 0, leaf);
            mapped(first.0, first.1, root, vaddr, 0, leaf) == first
        }),
{
    lemma_vpn_bounds(vaddr);
    lemma_walk_after_map(m, free, root, vaddr, leaf);
    let first = mapped(m, free, root, vaddr, 0, leaf);
    let s0 = map_walk(m, free, root, vaddr, 0);
    let i0 = vpn_of(vaddr, 0);
    assert(map_walk(first.0, first.1, root, vaddr, 0) == (first.0, first.1, s0.2));
    assert(table_at(first.0, s0.2).update(i0, leaf) =~= first.0[s0.2]);
    assert(with_word(first.0, s0.2, i0, leaf) =~= first.0);
}

/// Mapping the megapage of `vaddr` to the 2 MiB-aligned `paddr` makes every
/// address whose upper two page numbers equal `vaddr`'s translate to the same
/// offset in the megapage. It holds where the root slot holds no leaf and the walk's
/// two slots are distinct.
pub proof fn lemma_map_megapage_then_translate(
    m: Map<u64, Seq<u64>>,
    free: Seq<usize>,
    root: u64,
    vaddr: u64,
    paddr: u64,
    flags: u64,
    v: u64,
)
    requires
        frames_sized(m),
        has_frame_at(m, free, root, vaddr, 2),
        no_leaf_above(m, free, root, vaddr, 1),
        walk_slot(m, free, root, vaddr, 1) != walk_slot(m, free, root, vaddr, 2),
        flags < 0x400,
        flags & 0xEu64 != 0,
        paddr < 0x100_0000_0000_0000,
        paddr % 0x20_0000 == 0,
        vpn_of(v, 2) == vpn_of(vaddr, 2),
        vpn_of(v, 1) == vpn_of(vaddr, 1),
    ensures
        translation(mapped(m, free, root, vaddr, 1, leaf_pte(paddr, flags)).0, root, v) == Some(
            (paddr + v % 0x20_0000) as u64,
        ),
{
    lemma_vpn_bounds(vaddr);
    let leaf = leaf_pte(paddr, flags);
    let s1 = map_walk(m, free, root, vaddr, 1);
    let m2 = mapped(m, free, root, vaddr, 1, leaf).0;
    let i2 = vpn_of(vaddr, 2);
    let i1 = vpn_of(vaddr, 1);
    assert(map_walk(m, free, root, vaddr, 2) == (m, free, root));
    let e2 = word_at(m, root, i2);
    if !pte_valid(e2) {
        lemma_branch_is_table_pointer(free.last() as u64);
        lemma_word_at_with_word(m, root, i2, branch_pte(free.last() as u64), root, i2);
    }
    assert(pte_valid(word_at(s1.0, root, i2)) && !pte_leaf(word_at(s1.0, root, i2)));
    assert(pte_target(word_at(s1.0, root, i2)) == s1.2);
    assert(frames_sized(s1.0));
    lemma_word_at_with_word(s1.0, s1.2, i1, leaf, root, i2);
    lemma_word_at_with_word(s1.0, s1.2, i1, leaf, s1.2, i1);
    lemma_leaf_page(paddr, flags, v);
    lemma_leaf_megapage(paddr, flags, v);
    assert(walk_table(m2, root, v, 1) == s1.2);
    assert(walk_entry(m2, root, v, 1) == leaf);
    assert(walk_from(m2, root, v, 1) == Some((paddr + v % 0x20_0000) as u64));
}

/// A valid entry that names a next-level table.
pub open spec fn is_branch(e: u64) -> bool {
    pte_valid(e) && !pte_leaf(e)
}

/// Whether the translation walk for `w` reaches `level`: every entry above it is a
/// branch.
pub open spec fn walk_reaches(m: Map<u64, Seq<u64>>, root: u64, w: u64, level: int) -> bool {
    &&& level <= 1 ==> is_branch(walk_entry(m, root, w, 2))
    &&& level <= 0 ==> is_branch(walk_entry(m, root, w, 1))
}

/// The slot (table and index) that the translation walk for `w` reads at `level`.
pub open spec fn read_slot(m: Map<u64, Seq<u64>>, root: u64, w: u64, level: int) -> (u64, int) {
    (walk_table(m, root, w, level), vpn_of(w, level))
}

/// Whether `map`'s walk for `v` writes its slot at `level`: the leaf slot always,
/// a slot above only where it held an invalid entry.
pub open spec fn map_writes_at(m: Map<u64, Seq<u64>>, free: Seq<usize>, root: u64, v: u64, level: int) -> bool {
    let s = map_walk(m, free, root, v, level);
    level == 0 || !pte_valid(word_at(s.0, s.2, vpn_of(v, level)))
}

/// The translation walk for `w` reads no slot that `map` for `vaddr` writes.
pub open spec fn walk_avoids_map(m: Map<u64, Seq<u64>>, free: Seq<usize>, root: u64, vaddr: u64, w: u64) -> bool {
    forall|l: int, k: int|
        0 <= l <= 2 && 0 <= k <= 2 && walk_reaches(m, root, w, l) && map_writes_at(m, free, root, vaddr, k)
            ==> #[trigger] read_slot(m, root, w, l) != #[trigger] walk_slot(m, free, root, vaddr, k)
}

proof fn lemma_map_keeps_slot(
    m: Map<u64, Seq<u64>>,
    free: Seq<usize>,
    root: u64,
    vaddr: u64,
    leaf: u64,
    t: u64,
    i: int,
)
    requires
        frames_sized(m),
        0 <= i < ENTRIES_PER_TABLE,
        map_writes_at(m, free, root, vaddr, 2) ==> (t, i) != walk_slot(m, free, root, vaddr, 2),
        map_writes_at(m, free, root, vaddr, 1) ==> (t, i) != walk_slot(m, free, root, vaddr, 1),
        (t, i) != walk_slot(m, free, root, vaddr, 0),
    ensures
        word_at(mapped(m, free, root, vaddr, 0, leaf).0, t, i) == word_at(m, t, i),
{
    lemma_vpn_bounds(vaddr);
    let s1 = map_walk(m, free, root, vaddr, 1);
    let s0 = map_walk(m, free, root, vaddr, 0);
    let i2 = vpn_of(vaddr, 2);
    let i1 = vpn_of(vaddr, 1);
    let i0 = vpn_of(vaddr, 0);
    assert(map_walk(m, free, root, vaddr, 2) == (m, free, root));
    if !pte_valid(word_at(m, root, i2)) {
        lemma_word_at_with_word(m, root, i2, branch_pte(free.last() as u64), t, i);
    }
    assert(frames_sized(s1.0));
    assert(word_at(s1.0, t, i) == word_at(m, t, i));
    if !pte_valid(word_at(s1.0, s1.2, i1)) {
        lemma_word_at_with_word(s1.0, s1.2, i1, branch_pte(s1.1.last() as u64), t, i);
    }
    assert(frames_sized(s0.0));
    assert(word_at(s0.0, t, i) == word_at(m, t, i));
    lemma_word_at_with_word(s0.0, s0.2, i0, leaf, t, i);
}

/// Mapping a page leaves the translation of every address whose walk reads none of
/// the slots the mapping writes as it was.
pub proof fn lemma_map_keeps_other_translations(
    m: Map<u64, Seq<u64>>,
    free: Seq<usize>,
    root: u64,
    vaddr: u64,
    leaf: u64,
    w: u64,
)
    requires
        frames_sized(m),
        walk_avoids_map(m, free, root, vaddr, w),
    ensures
        translation(mapped(m, free, root, vaddr, 0, leaf).0, root, w) == translation(m, root, w),
{
    lemma_vpn_bounds(w);
    let m2 = mapped(m, free, root, vaddr, 0, leaf).0;
    assert(walk_reaches(m, root, w, 2));
    assert(read_slot(m, root, w, 2) != walk_slot(m, free, root, vaddr, 0));
    assert(map_writes_at(m, free, root, vaddr, 1) ==> read_slot(m, root, w, 2) != walk_slot(m, free, root, vaddr, 1));
    assert(map_writes_at(m, free, root, vaddr, 2) ==> read_slot(m, root, w, 2) != walk_slot(m, free, root, vaddr, 2));
    lemma_map_keeps_slot(m, free, root, vaddr, leaf, root, vpn_of(w, 2));
    assert(walk_entry(m2, root, w, 2) == walk_entry(m, root, w, 2));
    if is_branch(walk_entry(m, root, w, 2)) {
        let t1 = walk_table(m, root, w, 1);
        assert(walk_table(m2, root, w, 1) == t1);
        assert(walk_reaches(m, root, w, 1));
        assert(read_slot(m, root, w, 1) != walk_slot(m, free, root, vaddr, 0));
        assert(map_writes_at(m, free, root, vaddr, 1) ==> read_slot(m, root, w, 1) != walk_slot(m, free, root, vaddr, 1));
        assert(map_writes_at(m, free, root, vaddr, 2) ==> read_slot(m, root, w, 1) != walk_slot(m, free, root, vaddr, 2));
        lemma_map_keeps_slot(m, free, root, vaddr, leaf, t1, vpn_of(w, 1));
        assert(walk_entry(m2, root, w, 1) == walk_entry(m, root, w, 1));
        if is_branch(walk_entry(m, root, w, 1)) {
            let t0 = walk_table(m, root, w, 0);
            assert(walk_table(m2, root, w, 0) == t0);
            assert(walk_reaches(m, root, w, 0));
            assert(read_slot(m, root, w, 0) != walk_slot(m, free, root, vaddr, 0));
            assert(map_writes_at(m, free, root, vaddr, 1) ==> read_slot(m, root, w, 0) != walk_slot(m, free, root, vaddr, 1));
            assert(map_writes_at(m, free, root, vaddr, 2) ==> read_slot(m, root, w, 0) != walk_slot(m, free, root, vaddr, 2));
            lemma_map_keeps_slot(m, free, root, vaddr, leaf, t0, vpn_of(w, 0));
            assert(walk_entry(m2, root, w, 0) == walk_entry(m, root, w, 0));
        }
    }
}

/// The tables under `root` form a tree: tables that walks reach at different levels
/// are different, and two walks reach the same table below the root only through
/// the same slots above it.
pub open spec fn tree_shaped(m: Map<u64, Seq<u64>>, root: u64) -> bool {
    &&& forall|w1: u64, w2: u64, l1: int, l2: int|
        0 <= l1 <= 2 && 0 <= l2 <= 2 && l1 != l2 && walk_reaches(m, root, w1, l1) && walk_reaches(
            m,
            root,
            w2,
            l2,
        ) ==> #[trigger] walk_table(m, root, w1, l1) != #[trigger] walk_table(m, root, w2, l2)
    &&& forall|w1: u64, w2: u64, l: int|
        0 <= l <= 1 && walk_reaches(m, root, w1, l) && walk_reaches(m, root, w2, l) && #[trigger] walk_table(
            m,
            root,
            w1,
            l,
        ) == #[trigger] walk_table(m, root, w2, l) ==> vpn_of(w1, 2) == vpn_of(w2, 2) && (l == 0
            ==> vpn_of(w1, 1) == vpn_of(w2, 1))
}

/// `t` is a frame nothing uses: no table is held there and no walk reaches it.
pub open spec fn unused_frame(m: Map<u64, Seq<u64>>, root: u64, t: u64) -> bool {
    &&& !m.contains_key(t)
    &&& forall|w: u64, l: int| 0 <= l <= 2 && walk_reaches(m, root, w, l) ==> #[trigger] walk_table(m, root, w, l) != t
}

/// Every table that `map`'s walk for `v` hangs in is an unused frame, the two of them
/// different.
pub open spec fn takes_unused_frames(m: Map<u64, Seq<u64>>, free: Seq<usize>, root: u64, v: u64) -> bool {
    let t1 = map_walk(m, free, root, v, 1).2;
    let t0 = map_walk(m, free, root, v, 0).2;
    &&& map_writes_at(m, free, root, v, 2) ==> unused_frame(m, root, t1)
    &&& map_writes_at(m, free, root, v, 1) ==> unused_frame(m, root, t0) && t0 != t1
}

/// Facts about `map`'s walk on a tree with unused frames: its tables differ from
/// the root and from each other, a new level-1 table brings a new level-0 table, and
/// a table it does not hang in is the one the translation walk reaches.
proof fn lemma_tree_walk_tables(m: Map<u64, Seq<u64>>, free: Seq<usize>, root: u64, vaddr: u64)
    requires
        frames_sized(m),
        no_leaf_above(m, free, root, vaddr, 0),
        tree_shaped(m, root),
        takes_unused_frames(m, free, root, vaddr),
    ensures
        ({
            let t1 = map_walk(m, free, root, vaddr, 1).2;
            let t0 = map_walk(m, free, root, vaddr, 0).2;
            let new1 = map_writes_at(m, free, root, vaddr, 2);
            let new0 = map_writes_at(m, free, root, vaddr, 1);
            &&& t1 != root
            &&& t0 != root
            &&& t0 != t1
            &&& new1 ==> new0
            &&& !new1 ==> walk_reaches(m, root, vaddr, 1) && t1 == walk_table(m, root, vaddr, 1)
            &&& !new0 ==> walk_reaches(m, root, vaddr, 0) && t0 == walk_table(m, root, vaddr, 0)
        }),
{
    lemma_vpn_bounds(vaddr);
    lemma_zero_invalid();
    let s1 = map_walk(m, free, root, vaddr, 1);
    let s0 = map_walk(m, free, root, vaddr, 0);
    let t1 = s1.2;
    let t0 = s0.2;
    let i2 = vpn_of(vaddr, 2);
    let i1 = vpn_of(vaddr, 1);
    let new1 = map_writes_at(m, free, root, vaddr, 2);
    let new0 = map_writes_at(m, free, root, vaddr, 1);
    assert(map_walk(m, free, root, vaddr, 2) == (m, free, root));
    assert(walk_reaches(m, root, vaddr, 2));
    assert(walk_table(m, root, vaddr, 2) == root);
    if new1 {
        assert(walk_table(m, root, vaddr, 2) != t1);
        lemma_word_at_with_word(m, root, i2, branch_pte(free.last() as u64), t1, i1);
        assert(word_at(s1.0, t1, i1) == 0);
        assert(new0);
        assert(walk_table(m, root, vaddr, 2) != t0);
    } else {
        assert(walk_reaches(m, root, vaddr, 1));
        assert(t1 == walk_table(m, root, vaddr, 1));
        assert(walk_table(m, root, vaddr, 1) != walk_table(m, root, vaddr, 2));
        if new0 {
            assert(walk_table(m, root, vaddr, 2) != t0);
            assert(walk_table(m, root, vaddr, 1) != t0);
        } else {
            assert(s1.0 == m);
            assert(walk_reaches(m, root, vaddr, 0));
            assert(t0 == walk_table(m, root, vaddr, 0));
            assert(walk_table(m, root, vaddr, 0) != walk_table(m, root, vaddr, 2));
            assert(walk_table(m, root, vaddr, 0) != walk_table(m, root, vaddr, 1));
        }
    }
}

/// On a tree with unused frames, the slots `map`'s walk uses are distinct, so the
/// mapping laws above apply.
pub proof fn lemma_tree_walk_slots_distinct(m: Map<u64, Seq<u64>>, free: Seq<usize>, root: u64, vaddr: u64)
    requires
        frames_sized(m),
        no_leaf_above(m, free, root, vaddr, 0),
        tree_shaped(m, root),
        takes_unused_frames(m, free, root, vaddr),
    ensures
        walk_slot(m, free, root, vaddr, 1) != walk_slot(m, free, root, vaddr, 2),
        walk_slot(m, free, root, vaddr, 0) != walk_slot(m, free, root, vaddr, 2),
        walk_slot(m, free, root, vaddr, 0) != walk_slot(m, free, root, vaddr, 1),
{
    lemma_tree_walk_tables(m, free, root, vaddr);
    assert(map_walk(m, free, root, vaddr, 2) == (m, free, root));
}

/// On a tree, with an unused frame for a new level-1 table, the two slots
/// `map_megapage`'s walk uses are distinct, so the megapage law above applies.
pub proof fn lemma_tree_megapage_slots_distinct(m: Map<u64, Seq<u64>>, free: Seq<usize>, root: u64, vaddr: u64)
    requires
        no_leaf_above(m, free, root, vaddr, 1),
        tree_shaped(m, root),
        map_writes_at(m, free, root, vaddr, 2) ==> unused_frame(m, root, map_walk(m, free, root, vaddr, 1).2),
    ensures
        walk_slot(m, free, root, vaddr, 1) != walk_slot(m, free, root, vaddr, 2),
{
    let t1 = map_walk(m, free, root, vaddr, 1).2;
    assert(map_walk(m, free, root, vaddr, 2) == (m, free, root));
    assert(walk_reaches(m, root, vaddr, 2));
    assert(walk_table(m, root, vaddr, 2) == root);
    if map_writes_at(m, free, root, vaddr, 2) {
        assert(walk_table(m, root, vaddr, 2) != t1);
    } else {
        assert(walk_reaches(m, root, vaddr, 1));
        assert(t1 == walk_table(m, root, vaddr, 1));
        assert(walk_table(m, root, vaddr, 1) != walk_table(m, root, vaddr, 2));
    }
}

/// On a tree, mapping a page with unused frames leaves the translation of every
/// address in another page as it was.
pub proof fn lemma_map_keeps_other_pages(
    m: Map<u64, Seq<u64>>,
    free: Seq<usize>,
    root: u64,
    vaddr: u64,
    leaf: u64,
    w: u64,
)
    requires
        frames_sized(m),
        has_frame_at(m, free, root, vaddr, 2),
        has_frame_at(m, free, root, vaddr, 1),
        no_leaf_above(m, free, root, vaddr, 0),
        tree_shaped(m, root),
        takes_unused_frames(m, free, root, vaddr),
        !(vpn_of(w, 2) == vpn_of(vaddr, 2) && vpn_of(w, 1) == vpn_of(vaddr, 1) && vpn_of(w, 0) == vpn_of(
            vaddr,
            0,
        )),
    ensures
        translation(mapped(m, free, root, vaddr, 0, leaf).0, root, w) == translation(m, root, w),
{
    lemma_vpn_bounds(vaddr);
    lemma_vpn_bounds(w);
    lemma_zero_invalid();
    lemma_tree_walk_tables(m, free, root, vaddr);
    lemma_tree_walk_slots_distinct(m, free, root, vaddr);
    lemma_walk_after_map(m, free, root, vaddr, leaf);
    let s1 = map_walk(m, free, root, vaddr, 1);
    let s0 = map_walk(m, free, root, vaddr, 0);
    let t1 = s1.2;
    let t0 = s0.2;
    let i2 = vpn_of(vaddr, 2);
    let i1 = vpn_of(vaddr, 1);
    let i0 = vpn_of(vaddr, 0);
    let new1 = map_writes_at(m, free, root, vaddr, 2);
    let new0 = map_writes_at(m, free, root, vaddr, 1);
    let m3 = mapped(m, free, root, vaddr, 0, leaf).0;
    assert(map_walk(m, free, root, vaddr, 2) == (m, free, root));
    assert(walk_slot(m, free, root, vaddr, 2) == (root, i2));
    assert(walk_slot(m, free, root, vaddr, 1) == (t1, i1));
    assert(walk_slot(m, free, root, vaddr, 0) == (t0, i0));
    let w2 = vpn_of(w, 2);
    let w1 = vpn_of(w, 1);
    let w0 = vpn_of(w, 0);
    assert(walk_reaches(m, root, w, 2));
    assert(walk_table(m, root, w, 2) == root);
    if new1 && w2 == i2 {
        // The root slot was invalid: `w` mapped nothing, and now walks into the new
        // tables, which hold only `vaddr`'s path.
        assert(translation(m, root, w) is None);
        assert(walk_table(m3, root, w, 1) == t1);
        assert(unused_frame(m, root, t1));
        assert(unused_frame(m, root, t0));
        if w1 != i1 {
            lemma_map_keeps_slot(m, free, root, vaddr, leaf, t1, w1);
            assert(walk_entry(m3, root, w, 1) == 0);
        } else {
            assert(walk_table(m3, root, w, 0) == t0);
            assert(w0 != i0);
            lemma_map_keeps_slot(m, free, root, vaddr, leaf, t0, w0);
            assert(walk_entry(m3, root, w, 0) == 0);
        }
    } else {
        lemma_map_keeps_slot(m, free, root, vaddr, leaf, root, w2);
        assert(walk_entry(m3, root, w, 2) == walk_entry(m, root, w, 2));
        if is_branch(walk_entry(m, root, w, 2)) {
            let tw1 = walk_table(m, root, w, 1);
            assert(walk_reaches(m, root, w, 1));
            assert(walk_table(m3, root, w, 1) == tw1);
            assert(tw1 != walk_table(m, root, vaddr, 2));
            if new0 {
                assert(unused_frame(m, root, t0));
                assert(tw1 != t0);
            } else {
                assert(tw1 != walk_table(m, root, vaddr, 0));
            }
            if new1 {
                assert(unused_frame(m, root, t1));
                assert(tw1 != t1);
            }
            if tw1 == t1 && !new1 {
                assert(walk_table(m, root, w, 1) == walk_table(m, root, vaddr, 1));
            }
            if new0 && tw1 == t1 && w1 == i1 {
                // `w` shares `vaddr`'s path down to an invalid level-1 slot: it mapped
                // nothing, and now walks into the new level-0 table.
                assert(!new1);
                assert(w2 == i2);
                assert(s1.0 == m);
                assert(translation(m, root, w) is None);
                assert(walk_table(m3, root, w, 0) == t0);
                assert(w0 != i0);
                assert(unused_frame(m, root, t0));
                lemma_map_keeps_slot(m, free, root, vaddr, leaf, t0, w0);
                assert(walk_entry(m3, root, w, 0) == 0);
            } else {
                lemma_map_keeps_slot(m, free, root, vaddr, leaf, tw1, w1);
                assert(walk_entry(m3, root, w, 1) == walk_entry(m, root, w, 1));
                if is_branch(walk_entry(m, root, w, 1)) {
                    let tw0 = walk_table(m, root, w, 0);
                    assert(walk_reaches(m, root, w, 0));
                    assert(walk_table(m3, root, w, 0) == tw0);
                    assert(tw0 != walk_table(m, root, vaddr, 2));
                    if new1 {
                        assert(tw0 != t1);
                    } else {
                        assert(tw0 != walk_table(m, root, vaddr, 1));
                    }
                    if new0 {
                        assert(tw0 != t0);
                    } else {
                        if tw0 == t0 {
                            assert(walk_table(m, root, w, 0) == walk_table(m, root, vaddr, 0));
                            assert(w2 == i2 && w1 == i1);
                        }
                    }
                    lemma_map_keeps_slot(m, free, root, vaddr, leaf, tw0, w0);
                    assert(walk_entry(m3, root, w, 0) == walk_entry(m, root, w, 0));
                }
            }
        }
    }
}

proof fn lemma_leaf_fields(p: u64, f: u64)
    by (bit_vector)
    requires
        f < 0x100,
    ensures
        (((p >> 12u64) << 10u64) | (f | 0xC1u64)) & 0x3FFu64 == f | 0xC1u64,
        ((((p >> 12u64) << 10u64) | (f | 0xC1u64)) >> 10u64) & 0x0FFF_FFFF_FFFFu64 == (p >> 12u64)
            & 0x0FFF_FFFF_FFFFu64,
{
}

/// The entry that `map` (level 0) or `map_megapage` (level 1) leaves in the slot its
/// walk reaches holds every given flag bit and V, A, D in its low ten bits, and the
/// physical page number of `paddr` above them.
pub proof fn lemma_written_leaf(
    m: Map<u64, Seq<u64>>,
    free: Seq<usize>,
    root: u64,
    vaddr: u64,
    level: int,
    paddr: u64,
    flags: u64,
)
    requires
        frames_sized(m),
        0 <= level <= 1,
        flags < 0x100,
    ensures
        ({
            let e = word_at(
                mapped(m, free, root, vaddr, level, leaf_pte(paddr, flags)).0,
                map_walk(m, free, root, vaddr, level).2,
                vpn_of(vaddr, level),
            );
            &&& e & 0x3FFu64 == flags | 0xC1u64
            &&& (e >> 10u64) & 0x0FFF_FFFF_FFFFu64 == (paddr >> 12u64) & 0x0FFF_FFFF_FFFFu64
        }),
{
    lemma_vpn_bounds(vaddr);
    lemma_leaf_fields(paddr, flags);
    let s1 = map_walk(m, free, root, vaddr, 1);
    let s0 = map_walk(m, free, root, vaddr, 0);
    assert(map_walk(m, free, root, vaddr, 2) == (m, free, root));
    if !pte_valid(word_at(m, root, vpn_of(vaddr, 2))) {
        lemma_word_at_with_word(m, root, vpn_of(vaddr, 2), branch_pte(free.last() as u64), root, 0);
    }
    assert(frames_sized(s1.0));
    if !pte_valid(word_at(s1.0, s1.2, vpn_of(vaddr, 1))) {
        lemma_word_at_with_word(s1.0, s1.2, vpn_of(vaddr, 1), branch_pte(s1.1.last() as u64), root, 0);
    }
    assert(frames_sized(s0.0));
    let s = map_walk(m, free, root, vaddr, level);
    lemma_word_at_with_word(s.0, s.2, vpn_of(vaddr, level), leaf_pte(paddr, flags), s.2, vpn_of(vaddr, level));
}

} // verus!
