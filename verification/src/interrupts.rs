pub mod idt;
pub mod pic;
