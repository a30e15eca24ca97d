//! Memory-management core of a single-address-space kernel: a bitmap
//! frame manager, an identity-mapped page-table builder and a
//! segregated free-list heap allocator layered on the frame manager,
//! together with PCI configuration addressing and bus scanning.

pub mod allocator;
pub mod bitmap;
pub mod frame;
pub mod mm;
pub mod paging;
pub mod pci;
