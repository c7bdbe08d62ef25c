pub mod mem;
pub mod phys;
pub mod mmu;
pub mod paging;
