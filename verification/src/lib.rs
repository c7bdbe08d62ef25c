//! A small x86-64 hobby kernel's logic, verified: text console, keyboard line
//! editing, command dispatch, descriptor tables, physical frame allocation and
//! four-level paging.
pub mod drivers;
pub mod memory;
pub mod keyboard;
pub mod font;
pub mod gdt;
pub mod interrupts;
pub mod cmd;
