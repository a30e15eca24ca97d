//! The identity-mapped page-table hierarchy: one root entry, 64
//! second-level entries and 64 third-level tables of 2 MiB huge-page
//! leaves, so that every address below 64 GiB maps to itself.
use vstd::prelude::*;
use x86_64::structures::paging::{PageTable, PageTableFlags};
use x86_64::PhysAddr;

verus! {

/// Entries in one table.
pub const ENTRY_COUNT: usize = 512;

/// Number of third-level tables.
pub const PD_TABLE_CNT: usize = 64;

/// Bytes one second-level entry covers.
pub const GIB_BYTES: u64 = 0x4000_0000;

/// Bytes one huge-page leaf covers.
pub const HUGE_PAGE_BYTES: u64 = 0x20_0000;

/// Every address below this one is identity-mapped (64 GiB).
pub const MAPPED_CEILING: u64 = 0x10_0000_0000;

/// Present and writable: an entry that points to the next table.
pub const TABLE_FLAGS: u64 = 0x3;

/// Present, writable and huge: an entry that maps a 2 MiB window.
pub const LEAF_FLAGS: u64 = 0x83;

/// Address bits of a huge-page leaf entry.
pub const HUGE_ADDR_MASK: u64 = 0x000f_ffff_ffe0_0000;

#[verifier::external_type_specification]
#[verifier::external_body]
pub struct ExPageTable(PageTable);

/// The raw entries of a page table, in slot order.
pub uninterp spec fn table_entries(t: PageTable) -> Seq<u64>;

/// Relies on x86_64's PageTable::new: 512 entries, each zero.
#[verifier::external_body]
fn empty_table() -> (r: PageTable)
    ensures
        table_entries(r) == Seq::new(ENTRY_COUNT as nat, |i: int| 0u64),
{
    PageTable::new()
}

/// Relies on x86_64's PageTableEntry::set_addr, which stores
/// `addr | flags.bits()` in the entry (and panics on an address that is
/// not 4 KiB-aligned), on PhysAddr::new, which keeps an address below
/// 2^52, and on PageTableFlags::from_bits_truncate, which keeps the
/// PRESENT (1), WRITABLE (2) and HUGE_PAGE (0x80) bits.
#[verifier::external_body]
fn set_entry(t: &mut PageTable, index: usize, addr: u64, flags: u64)
    requires
        index < ENTRY_COUNT,
        table_entries(*old(t)).len() == ENTRY_COUNT,
        addr % 4096 == 0,
        addr < 0x10_0000_0000_0000,
        flags == TABLE_FLAGS || flags == LEAF_FLAGS,
    ensures
        table_entries(*final(t)) == table_entries(*old(t)).update(index as int, addr | flags),
{
    t[index].set_addr(PhysAddr::new(addr), PageTableFlags::from_bits_truncate(flags));
}

/// Relies on x86_64's PageTableEntry::addr and PageTableEntry::flags,
/// which split the raw entry into its address bits and the rest, so that
/// their union is the raw entry.
#[verifier::external_body]
fn read_entry(t: &PageTable, index: usize) -> (r: u64)
    requires
        index < ENTRY_COUNT,
        table_entries(*t).len() == ENTRY_COUNT,
    ensures
        r == table_entries(*t)[index as int],
{
    t[index].addr().as_u64() | t[index].flags().bits()
}

/// The leaf in slot `j` of third-level table `i`: the 2 MiB window at
/// `i GiB + j * 2 MiB`, mapped to itself.
pub open spec fn identity_leaf(i: int, j: int) -> u64 {
    ((i * GIB_BYTES + j * HUGE_PAGE_BYTES) as u64) | LEAF_FLAGS
}

/// Slot of `va` in the root table.
pub open spec fn l4_index(va: u64) -> int {
    ((va >> 39u64) & 511u64) as int
}

/// Slot of `va` in the second-level table.
pub open spec fn l3_index(va: u64) -> int {
    ((va >> 30u64) & 511u64) as int
}

/// Slot of `va` in a third-level table.
pub open spec fn l2_index(va: u64) -> int {
    ((va >> 21u64) & 511u64) as int
}

/// The entry is present.
pub open spec fn present(e: u64) -> bool {
    e & 1u64 == 1u64
}

/// The entry maps a huge page.
pub open spec fn huge(e: u64) -> bool {
    e & 0x80u64 == 0x80u64
}

/// The page walk of `va` through a root table, the second-level table and
/// the third-level tables (found by second-level slot): the physical
/// address, or `None` where no present huge leaf covers `va`.
pub open spec fn walk(root: Seq<u64>, pdp: Seq<u64>, pd: Seq<Seq<u64>>, va: u64) -> Option<u64> {
    if va >> 48u64 != 0 {
        None
    } else if !present(root[l4_index(va)]) {
        None
    } else if !present(pdp[l3_index(va)]) || l3_index(va) >= pd.len() {
        None
    } else {
        let e = pd[l3_index(va)][l2_index(va)];
        if !present(e) || !huge(e) {
            None
        } else {
            Some(((e & HUGE_ADDR_MASK) + (va & 0x1f_ffffu64)) as u64)
        }
    }
}

/// Every table is all zeros: nothing is mapped.
pub open spec fn is_blank(root: Seq<u64>, pdp: Seq<u64>, pd: Seq<Seq<u64>>) -> bool {
    &&& root == Seq::new(ENTRY_COUNT as nat, |i: int| 0u64)
    &&& pdp == Seq::new(ENTRY_COUNT as nat, |i: int| 0u64)
    &&& pd.len() == PD_TABLE_CNT
    &&& forall|i: int| 0 <= i < PD_TABLE_CNT ==> #[trigger] pd[i] == Seq::new(ENTRY_COUNT as nat, |j: int| 0u64)
}

/// The identity map: root slot 0 points to the second-level table at
/// `pdp_addr`, second-level slot `i < 64` to the third-level table at
/// `pd_addrs[i]`, every third-level slot holds its identity leaf, and
/// every other entry is zero.
pub open spec fn is_identity_map(
    root: Seq<u64>,
    pdp: Seq<u64>,
    pd: Seq<Seq<u64>>,
    pdp_addr: u64,
    pd_addrs: Seq<u64>,
) -> bool {
    &&& root == Seq::new(ENTRY_COUNT as nat, |i: int| if i == 0 { pdp_addr | TABLE_FLAGS } else { 0u64 })
    &&& pdp == Seq::new(
        ENTRY_COUNT as nat,
        |i: int| if i < PD_TABLE_CNT { pd_addrs[i] | TABLE_FLAGS } else { 0u64 },
    )
    &&& pd.len() == PD_TABLE_CNT
    &&& forall|i: int| 0 <= i < PD_TABLE_CNT ==> #[trigger] pd[i] == Seq::new(ENTRY_COUNT as nat, |j: int| identity_leaf(i, j))
}

proof fn lemma_leaf_value(i: u64, j: u64)
    requires
        i < 64,
        j < 512,
    ensures
        identity_leaf(i as int, j as int) == ((i << 30u64) | (j << 21u64)) | 0x83u64,
        (i * GIB_BYTES + j * HUGE_PAGE_BYTES) < 0x10_0000_0000,
        (i * GIB_BYTES + j * HUGE_PAGE_BYTES) % 4096 == 0,
{
    assert((i * 0x4000_0000u64 + j * 0x20_0000u64) as u64 == ((i << 30u64) | (j << 21u64))) by (bit_vector)
        requires i < 64u64, j < 512u64;
    assert((i * 0x4000_0000u64 + j * 0x20_0000u64) < 0x10_0000_0000u64) by (bit_vector)
        requires i < 64u64, j < 512u64;
    assert(((i * 0x4000_0000u64 + j * 0x20_0000u64) as u64) % 4096u64 == 0u64) by (bit_vector)
        requires i < 64u64, j < 512u64;
}

proof fn lemma_below_ceiling(va: u64)
    requires
        va < MAPPED_CEILING,
    ensures
        va >> 48u64 == 0,
        l4_index(va) == 0,
        l3_index(va) < PD_TABLE_CNT,
        l2_index(va) < ENTRY_COUNT,
        ({
            let e = ((((va >> 30u64) & 511u64) << 30u64) | (((va >> 21u64) & 511u64) << 21u64)) | 0x83u64;
            &&& present(e)
            &&& huge(e)
            &&& (e & HUGE_ADDR_MASK) + (va & 0x1f_ffffu64) == va
        }),
{
    assert(va >> 48u64 == 0 && (va >> 39u64) & 511u64 == 0 && (va >> 30u64) & 511u64 < 64) by (bit_vector)
        requires va < 0x10_0000_0000u64;
    assert((va >> 21u64) & 511u64 < 512) by (bit_vector);
    let e = ((((va >> 30u64) & 511u64) << 30u64) | (((va >> 21u64) & 511u64) << 21u64)) | 0x83u64;
    assert(e & 1u64 == 1u64 && e & 0x80u64 == 0x80u64) by (bit_vector)
        requires e == ((((va >> 30u64) & 511u64) << 30u64) | (((va >> 21u64) & 511u64) << 21u64)) | 0x83u64;
    assert((e & 0x000f_ffff_ffe0_0000u64) + (va & 0x1f_ffffu64) == va) by (bit_vector)
        requires
            va < 0x10_0000_0000u64,
            e == ((((va >> 30u64) & 511u64) << 30u64) | (((va >> 21u64) & 511u64) << 21u64)) | 0x83u64,
    ;
}

proof fn lemma_above_ceiling(va: u64)
    requires
        va >= MAPPED_CEILING,
        va >> 48u64 == 0,
        l4_index(va) == 0,
    ensures
        l3_index(va) >= PD_TABLE_CNT,
{
    assert((va >> 30u64) & 511u64 >= 64) by (bit_vector)
        requires
            va >= 0x10_0000_0000u64,
            va >> 48u64 == 0,
            (va >> 39u64) & 511u64 == 0,
    ;
}

proof fn lemma_table_entry_present(a: u64)
    ensures
        present(a | TABLE_FLAGS),
        !present(0u64),
{
    assert((a | 3u64) & 1u64 == 1u64) by (bit_vector);
    assert(0u64 & 1u64 != 1u64) by (bit_vector);
}

/// In the identity map, every virtual address below the mapped ceiling
/// translates to itself, and every address at or above it is unmapped.
pub proof fn lemma_identity_translation(
    root: Seq<u64>,
    pdp: Seq<u64>,
    pd: Seq<Seq<u64>>,
    pdp_addr: u64,
    pd_addrs: Seq<u64>,
    va: u64,
)
    requires
        is_identity_map(root, pdp, pd, pdp_addr, pd_addrs),
    ensures
        walk(root, pdp, pd, va) == if va < MAPPED_CEILING {
            Some(va)
        } else {
            None::<u64>
        },
{
    lemma_table_entry_present(pdp_addr);
    assert((va >> 39u64) & 511u64 < 512 && (va >> 30u64) & 511u64 < 512 && (va >> 21u64) & 511u64 < 512) by (bit_vector);
    if va < MAPPED_CEILING {
        lemma_below_ceiling(va);
        let i = l3_index(va);
        let j = l2_index(va);
        lemma_table_entry_present(pd_addrs[i]);
        lemma_leaf_value(i as u64, j as u64);
        assert(pd[i][j] == identity_leaf(i, j));
    } else if va >> 48u64 == 0 {
        if l4_index(va) == 0 {
            lemma_above_ceiling(va);
        }
    }
}

/// The page tables: the root, the second-level table and an arena of
/// third-level tables addressed by second-level slot.
pub struct IdentityPageTables {
    pml4: PageTable,
    pdp: PageTable,
    pd: Vec<PageTable>,
}

impl IdentityPageTables {
    pub closed spec fn wf(&self) -> bool {
        &&& table_entries(self.pml4).len() == ENTRY_COUNT
        &&& table_entries(self.pdp).len() == ENTRY_COUNT
        &&& self.pd@.len() == PD_TABLE_CNT
        &&& forall|i: int| 0 <= i < PD_TABLE_CNT ==> table_entries(#[trigger] self.pd@[i]).len() == ENTRY_COUNT
    }

    /// Entries of the root table.
    pub closed spec fn root_entries(&self) -> Seq<u64> {
        table_entries(self.pml4)
    }

    /// Entries of the second-level table.
    pub closed spec fn pdp_entries(&self) -> Seq<u64> {
        table_entries(self.pdp)
    }

    /// Entries of each third-level table.
    pub closed spec fn pd_entries(&self) -> Seq<Seq<u64>> {
        self.pd@.map_values(|t: PageTable| table_entries(t))
    }

    /// Blank tables: nothing is mapped yet.
    pub fn new() -> (r: Self)
        ensures
            r.wf(),
            is_blank(r.root_entries(), r.pdp_entries(), r.pd_entries()),
    {
        let mut pd: Vec<PageTable> = Vec::new();
        let mut i: usize = 0;
        while i < PD_TABLE_CNT
            invariant
                i <= PD_TABLE_CNT,
                pd@.len() == i,
                forall|k: int| 0 <= k < i ==> table_entries(#[trigger] pd@[k]) == Seq::new(
                    ENTRY_COUNT as nat,
                    |j: int| 0u64,
                ),
            decreases PD_TABLE_CNT - i,
        {
            pd.push(empty_table());
            i += 1;
        }
        let r = IdentityPageTables { pml4: empty_table(), pdp: empty_table(), pd };
        assert forall|k: int| 0 <= k < PD_TABLE_CNT implies #[trigger] r.pd_entries()[k] == Seq::new(
            ENTRY_COUNT as nat,
            |j: int| 0u64,
        ) by {}
        r
    }

    /// Builds the identity map in blank tables. `pdp_addr` is the physical
    /// address of the second-level table and `pd_addrs[i]` that of
    /// third-level table `i`.
    pub fn setup_identity_page_table(&mut self, pdp_addr: u64, pd_addrs: &[u64])
        requires
            old(self).wf(),
            is_blank(old(self).root_entries(), old(self).pdp_entries(), old(self).pd_entries()),
            pdp_addr % 4096 == 0,
            pdp_addr < 0x10_0000_0000_0000,
            pd_addrs@.len() == PD_TABLE_CNT,
            forall|i: int| 0 <= i < PD_TABLE_CNT ==> #[trigger] pd_addrs@[i] % 4096 == 0 && pd_addrs@[i]
                < 0x10_0000_0000_0000,
        ensures
            final(self).wf(),
            is_identity_map(
                final(self).root_entries(),
                final(self).pdp_entries(),
                final(self).pd_entries(),
                pdp_addr,
                pd_addrs@,
            ),
            forall|va: u64|
                #[trigger] walk(final(self).root_entries(), final(self).pdp_entries(), final(self).pd_entries(), va)
                    == if va < MAPPED_CEILING {
                    Some(va)
                } else {
                    None::<u64>
                },
    {
        set_entry(&mut self.pml4, 0, pdp_addr, TABLE_FLAGS);
        assert(self.root_entries() =~= Seq::new(
            ENTRY_COUNT as nat,
            |i: int| if i == 0 { pdp_addr | TABLE_FLAGS } else { 0u64 },
        ));
        let mut i: usize = 0;
        while i < PD_TABLE_CNT
            invariant
                self.wf(),
                i <= PD_TABLE_CNT,
                pd_addrs@.len() == PD_TABLE_CNT,
                forall|k: int| 0 <= k < PD_TABLE_CNT ==> #[trigger] pd_addrs@[k] % 4096 == 0
                    && pd_addrs@[k] < 0x10_0000_0000_0000,
                self.root_entries() == Seq::new(
                    ENTRY_COUNT as nat,
                    |k: int| if k == 0 { pdp_addr | TABLE_FLAGS } else { 0u64 },
                ),
                self.pdp_entries() == Seq::new(
                    ENTRY_COUNT as nat,
                    |k: int| if k < i { pd_addrs@[k] | TABLE_FLAGS } else { 0u64 },
                ),
                self.pd_entries() == old(self).pd_entries(),
            decreases PD_TABLE_CNT - i,
        {
            set_entry(&mut self.pdp, i, pd_addrs[i], TABLE_FLAGS);
            i += 1;
            assert(self.pdp_entries() =~= Seq::new(
                ENTRY_COUNT as nat,
                |k: int| if k < i { pd_addrs@[k] | TABLE_FLAGS } else { 0u64 },
            ));
        }
        let mut i: usize = 0;
        while i < PD_TABLE_CNT
            invariant
                self.wf(),
                i <= PD_TABLE_CNT,
                self.root_entries() == Seq::new(
                    ENTRY_COUNT as nat,
                    |k: int| if k == 0 { pdp_addr | TABLE_FLAGS } else { 0u64 },
                ),
                self.pdp_entries() == Seq::new(
                    ENTRY_COUNT as nat,
                    |k: int| if k < PD_TABLE_CNT { pd_addrs@[k] | TABLE_FLAGS } else { 0u64 },
                ),
                forall|k: int| 0 <= k < i ==> #[trigger] self.pd_entries()[k] == Seq::new(
                    ENTRY_COUNT as nat,
                    |j: int| identity_leaf(k, j),
                ),
                forall|k: int| i <= k < PD_TABLE_CNT ==> #[trigger] self.pd_entries()[k] == Seq::new(
                    ENTRY_COUNT as nat,
                    |j: int| 0u64,
                ),
            decreases PD_TABLE_CNT - i,
        {
            let mut j: usize = 0;
            while j < ENTRY_COUNT
                invariant
                    self.wf(),
                    i < PD_TABLE_CNT,
                    j <= ENTRY_COUNT,
                    self.root_entries() == Seq::new(
                        ENTRY_COUNT as nat,
                        |k: int| if k == 0 { pdp_addr | TABLE_FLAGS } else { 0u64 },
                    ),
                    self.pdp_entries() == Seq::new(
                        ENTRY_COUNT as nat,
                        |k: int| if k < PD_TABLE_CNT { pd_addrs@[k] | TABLE_FLAGS } else { 0u64 },
                    ),
                    forall|k: int| 0 <= k < i ==> #[trigger] self.pd_entries()[k] == Seq::new(
                        ENTRY_COUNT as nat,
                        |m: int| identity_leaf(k, m),
                    ),
                    forall|k: int| i < k < PD_TABLE_CNT ==> #[trigger] self.pd_entries()[k] == Seq::new(
                        ENTRY_COUNT as nat,
                        |m: int| 0u64,
                    ),
                    self.pd_entries()[i as int] == Seq::new(
                        ENTRY_COUNT as nat,
                        |m: int| if m < j { identity_leaf(i as int, m) } else { 0u64 },
                    ),
                decreases ENTRY_COUNT - j,
            {
                proof {
                    lemma_leaf_value(i as u64, j as u64);
                }
                let addr = i as u64 * GIB_BYTES + j as u64 * HUGE_PAGE_BYTES;
                let ghost before = self.pd_entries();
                let ghost raw = self.pd@;
                set_entry(&mut self.pd[i], j, addr, LEAF_FLAGS);
                j += 1;
                proof {
                    assert(before[i as int] == table_entries(raw[i as int]));
                    assert forall|k: int| 0 <= k < PD_TABLE_CNT && k != i implies #[trigger] self.pd_entries()[k]
                        == before[k] by {
                        assert(before[k] == table_entries(raw[k]));
                    }
                    assert(self.pd_entries()[i as int] =~= Seq::new(
                        ENTRY_COUNT as nat,
                        |m: int| if m < j { identity_leaf(i as int, m) } else { 0u64 },
                    ));
                }
            }
            assert(self.pd_entries()[i as int] =~= Seq::new(
                ENTRY_COUNT as nat,
                |m: int| identity_leaf(i as int, m),
            ));
            i += 1;
        }
        assert(self.pdp_entries() =~= Seq::new(
            ENTRY_COUNT as nat,
            |k: int| if k < PD_TABLE_CNT { pd_addrs@[k] | TABLE_FLAGS } else { 0u64 },
        ));
        assert forall|va: u64|
            #[trigger] walk(self.root_entries(), self.pdp_entries(), self.pd_entries(), va) == if va
                < MAPPED_CEILING {
                Some(va)
            } else {
                None::<u64>
            } by {
            lemma_identity_translation(
                self.root_entries(),
                self.pdp_entries(),
                self.pd_entries(),
                pdp_addr,
                pd_addrs@,
                va,
            );
        }
    }

    /// Resolves a virtual address to the physical address it maps to, or
    /// `None` where it is unmapped.
    pub fn translate(&self, va: u64) -> (r: Option<u64>)
        requires
            self.wf(),
        ensures
            r == walk(self.root_entries(), self.pdp_entries(), self.pd_entries(), va),
    {
        if va >> 48u64 != 0 {
            return None;
        }
        assert((va >> 39u64) & 511u64 < 512 && (va >> 30u64) & 511u64 < 512 && (va >> 21u64) & 511u64
            < 512) by (bit_vector);
        let l4 = ((va >> 39u64) & 511u64) as usize;
        if read_entry(&self.pml4, l4) & 1 != 1 {
            return None;
        }
        let l3 = ((va >> 30u64) & 511u64) as usize;
        if read_entry(&self.pdp, l3) & 1 != 1 || l3 >= self.pd.len() {
            return None;
        }
        let l2 = ((va >> 21u64) & 511u64) as usize;
        let e = read_entry(&self.pd[l3], l2);
        if e & 1 != 1 || e & 0x80 != 0x80 {
            return None;
        }
        assert((e & HUGE_ADDR_MASK) + (va & 0x1f_ffffu64) <= u64::MAX) by (bit_vector);
        Some((e & HUGE_ADDR_MASK) + (va & 0x1f_ffff))
    }

    /// The root table, whose address goes into the translation-root register.
    pub fn root_table(&self) -> (r: &PageTable)
        ensures
            table_entries(*r) == self.root_entries(),
    {
        &self.pml4
    }

    /// The second-level table.
    pub fn pdp_table(&self) -> (r: &PageTable)
        ensures
            table_entries(*r) == self.pdp_entries(),
    {
        &self.pdp
    }

    /// Third-level table `i`.
    pub fn pd_table(&self, i: usize) -> (r: &PageTable)
        requires
            self.wf(),
            i < PD_TABLE_CNT,
        ensures
            table_entries(*r) == self.pd_entries()[i as int],
    {
        &self.pd[i]
    }
}

} // verus!
