pub mod gdt;
