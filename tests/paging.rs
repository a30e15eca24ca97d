use kernel_mm::paging::{IdentityPageTables, MAPPED_CEILING};

fn built() -> IdentityPageTables {
    let mut t = IdentityPageTables::new();
    let pd_addrs: Vec<u64> = (0..64u64).map(|i| 0x10_0000 + i * 0x1000).collect();
    t.setup_identity_page_table(0x8000, &pd_addrs);
    t
}

#[test]
fn blank_tables_map_nothing() {
    let t = IdentityPageTables::new();
    assert_eq!(t.translate(0), None);
    assert_eq!(t.translate(0x1234_5000), None);
}

#[test]
fn identity_map_resolves_below_ceiling_to_itself() {
    let t = built();
    for va in [0u64, 1, 0xfff, 0x1000, 0x20_0000, 0x1234_5678, 0x4000_0000, 0x7_ffff_ffff, MAPPED_CEILING - 1] {
        assert_eq!(t.translate(va), Some(va), "va {:#x}", va);
    }
}

#[test]
fn identity_map_leaves_above_ceiling_unmapped() {
    let t = built();
    for va in [MAPPED_CEILING, MAPPED_CEILING + 0x20_0000, 0x80_0000_0000, 0xffff_8000_0000_0000, u64::MAX] {
        assert_eq!(t.translate(va), None, "va {:#x}", va);
    }
}
