use vstd::prelude::*;

verus! {

/// Command port of the primary interrupt controller.
pub const PIC1_CMD: u16 = 0x20;
/// Data port of the primary interrupt controller.
pub const PIC1_DATA: u16 = 0x21;
/// Command port of the secondary interrupt controller.
pub const PIC2_CMD: u16 = 0xA0;
/// Data port of the secondary interrupt controller.
pub const PIC2_DATA: u16 = 0xA1;
/// ICW1: an ICW4 follows.
pub const ICW1_ICW4: u8 = 0x01;
/// ICW1: start initialization.
pub const ICW1_INIT: u8 = 0x10;
/// ICW4: 8086/88 mode.
pub const ICW4_8086: u8 = 0x01;

/// One write to an I/O port, optionally followed by a short wait.
#[derive(Copy, Clone, Debug, PartialEq, Eq, Structural)]
pub struct PortWrite {
    pub port: u16,
    pub value: u8,
    pub wait: bool,
}

/// The remapping sequence: initialize both controllers, put their vectors at
/// 0x20 and 0x28, wire the secondary to line 2, select 8086 mode, then
/// restore the interrupt masks read before (`mask1`, `mask2`).
pub open spec fn pic_init_sequence(mask1: u8, mask2: u8) -> Seq<PortWrite> {
    seq![
        PortWrite { port: 0x20, value: 0x11, wait: true },
        PortWrite { port: 0xA0, value: 0x11, wait: true },
        PortWrite { port: 0x21, value: 0x20, wait: true },
        PortWrite { port: 0xA1, value: 0x28, wait: true },
        PortWrite { port: 0x21, value: 4, wait: true },
        PortWrite { port: 0xA1, value: 2, wait: true },
        PortWrite { port: 0x21, value: 0x01, wait: true },
        PortWrite { port: 0xA1, value: 0x01, wait: true },
        PortWrite { port: 0x21, value: mask1, wait: false },
        PortWrite { port: 0xA1, value: mask2, wait: false },
    ]
}

/// The port writes that remap both interrupt controllers, given the masks
/// read from their data ports beforehand.
pub fn init(mask1: u8, mask2: u8) -> (r: Vec<PortWrite>)
    ensures
        r@ == pic_init_sequence(mask1, mask2),
{
    let mut v: Vec<PortWrite> = Vec::new();
    v.push(PortWrite { port: PIC1_CMD, value: ICW1_INIT | ICW1_ICW4, wait: true });
    v.push(PortWrite { port: PIC2_CMD, value: ICW1_INIT | ICW1_ICW4, wait: true });
    v.push(PortWrite { port: PIC1_DATA, value: 0x20, wait: true });
    v.push(PortWrite { port: PIC2_DATA, value: 0x28, wait: true });
    v.push(PortWrite { port: PIC1_DATA, value: 4, wait: true });
    v.push(PortWrite { port: PIC2_DATA, value: 2, wait: true });
    v.push(PortWrite { port: PIC1_DATA, value: ICW4_8086, wait: true });
    v.push(PortWrite { port: PIC2_DATA, value: ICW4_8086, wait: true });
    v.push(PortWrite { port: PIC1_DATA, value: mask1, wait: false });
    v.push(PortWrite { port: PIC2_DATA, value: mask2, wait: false });
    proof {
        assert(0x10u8 | 0x01u8 == 0x11u8) by (bit_vector);
        assert(v@ =~= pic_init_sequence(mask1, mask2));
    }
    v
}

} // verus!
