use vstd::prelude::*;

verus! {

/// The registers saved by the interrupt entry stubs, then the frame the CPU
/// pushes, in stack order.
#[derive(Copy, Clone, Debug, PartialEq, Eq, Structural)]
pub struct InterruptFrame {
    pub rax: u64,
    pub rcx: u64,
    pub rdx: u64,
    pub rbx: u64,
    pub _rsp_unused: u64,
    pub rbp: u64,
    pub rsi: u64,
    pub rdi: u64,
    pub r8: u64,
    pub r9: u64,
    pub r10: u64,
    pub r11: u64,
    pub r12: u64,
    pub r13: u64,
    pub r14: u64,
    pub r15: u64,
    pub interrupt_number: u64,
    pub error_code: u64,
    pub rip: u64,
    pub cs: u64,
    pub rflags: u64,
    pub rsp: u64,
    pub ss: u64,
}

/// One gate of the interrupt descriptor table, field by field.
#[derive(Copy, Clone, Debug, PartialEq, Eq, Structural)]
pub struct IdtEntry {
    pub offset_low: u16,
    pub selector: u16,
    pub ist: u8,
    pub type_attr: u8,
    pub offset_mid: u16,
    pub offset_high: u32,
    pub reserved: u32,
}

/// The handler address a gate holds.
pub open spec fn gate_handler(e: IdtEntry) -> int {
    e.offset_low + e.offset_mid * 0x1_0000 + e.offset_high * 0x1_0000_0000
}

impl IdtEntry {
    /// An absent gate: every field 0.
    pub fn missing() -> (r: Self)
        ensures
            r == (IdtEntry { offset_low: 0, selector: 0, ist: 0, type_attr: 0, offset_mid: 0, offset_high: 0, reserved: 0 }),
    {
        IdtEntry { offset_low: 0, selector: 0, ist: 0, type_attr: 0, offset_mid: 0, offset_high: 0, reserved: 0 }
    }

    /// A present ring-0 interrupt gate to `handler` through the kernel code
    /// segment (selector 0x08), no interrupt stack.
    pub fn new(handler: u64) -> (r: Self)
        ensures
            r.offset_low == handler as u16,
            r.offset_mid == (handler >> 16u64) as u16,
            r.offset_high == (handler >> 32u64) as u32,
            r.selector == 0x08,
            r.ist == 0,
            r.type_attr == 0x8E,
            r.reserved == 0,
    {
        IdtEntry {
            offset_low: handler as u16,
            selector: 0x08,
            ist: 0,
            type_attr: 0x8E,
            offset_mid: (handler >> 16u64) as u16,
            offset_high: (handler >> 32u64) as u32,
            reserved: 0,
        }
    }
}

/// The two little-endian 8-byte halves of a gate, fields in declaration
/// order.
pub open spec fn gate_words(e: IdtEntry) -> (int, int) {
    (
        e.offset_low + e.selector * 0x1_0000 + e.ist * 0x1_0000_0000 + e.type_attr * 0x100_0000_0000
            + e.offset_mid * 0x1_0000_0000_0000,
        e.offset_high + e.reserved * 0x1_0000_0000,
    )
}

impl IdtEntry {
    /// Packs the entry into two words, low half first.
    pub fn encode(self) -> (r: (u64, u64))
        ensures
            (r.0 as int, r.1 as int) == gate_words(self),
    {
        let low = self.offset_low as u64 + self.selector as u64 * 0x1_0000 + self.ist as u64 * 0x1_0000_0000
            + self.type_attr as u64 * 0x100_0000_0000 + self.offset_mid as u64 * 0x1_0000_0000_0000;
        let high = self.offset_high as u64 + self.reserved as u64 * 0x1_0000_0000;
        (low, high)
    }
}

/// A gate made for a handler leads back to exactly that handler.
pub proof fn lemma_gate_handler_roundtrip(handler: u64)
    ensures
        gate_handler(IdtEntry {
            offset_low: handler as u16,
            selector: 0x08,
            ist: 0,
            type_attr: 0x8E,
            offset_mid: (handler >> 16u64) as u16,
            offset_high: (handler >> 32u64) as u32,
            reserved: 0,
        }) == handler,
{
    let lo = handler as u16;
    let mid = (handler >> 16u64) as u16;
    let hi = (handler >> 32u64) as u32;
    assert(lo as u64 + (mid as u64) * 0x1_0000u64 + (hi as u64) * 0x1_0000_0000u64 == handler) by (bit_vector)
        requires
            lo == handler as u16,
            mid == (handler >> 16u64) as u16,
            hi == (handler >> 32u64) as u32;
}

/// Number of gates in the table.
pub const IDT_ENTRIES: usize = 256;

/// Size of the table in bytes minus one, as `lidt` takes it.
pub const IDT_LIMIT: u16 = 4095;

/// The interrupt descriptor table: gate `i` leads to `stubs[i]` for each
/// given entry stub, the remaining gates are absent.
pub fn init(stubs: &[u64]) -> (r: Vec<IdtEntry>)
    requires
        stubs@.len() <= 256,
    ensures
        r@.len() == 256,
        forall|i: int| 0 <= i < stubs@.len() ==> gate_handler(#[trigger] r@[i]) == stubs@[i] && r@[i].selector
            == 0x08 && r@[i].type_attr == 0x8E && r@[i].ist == 0 && r@[i].reserved == 0,
        forall|i: int| stubs@.len() <= i < 256 ==> #[trigger] r@[i] == (IdtEntry {
            offset_low: 0,
            selector: 0,
            ist: 0,
            type_attr: 0,
            offset_mid: 0,
            offset_high: 0,
            reserved: 0,
        }),
{
    let mut table: Vec<IdtEntry> = Vec::new();
    let mut i: usize = 0;
    while i < IDT_ENTRIES
        invariant
            i <= 256,
            stubs@.len() <= 256,
            table@.len() == i,
            forall|j: int| 0 <= j < i && j < stubs@.len() ==> gate_handler(#[trigger] table@[j]) == stubs@[j]
                && table@[j].selector == 0x08 && table@[j].type_attr == 0x8E && table@[j].ist == 0
                && table@[j].reserved == 0,
            forall|j: int| stubs@.len() <= j < i ==> #[trigger] table@[j] == (IdtEntry {
                offset_low: 0,
                selector: 0,
                ist: 0,
                type_attr: 0,
                offset_mid: 0,
                offset_high: 0,
                reserved: 0,
            }),
        decreases 256 - i,
    {
        if i < stubs.len() {
            proof {
                lemma_gate_handler_roundtrip(stubs@[i as int]);
            }
            table.push(IdtEntry::new(stubs[i]));
        } else {
            table.push(IdtEntry::missing());
        }
        i = i + 1;
    }
    table
}

/// What an interrupt needs.
#[derive(Copy, Clone, Debug, PartialEq, Eq, Structural)]
pub enum InterruptAction {
    /// A CPU exception: report it by name and halt.
    Exception(u8),
    /// A hardware interrupt: acknowledge this line at the interrupt
    /// controller.
    EndOfInterrupt(u8),
    /// The keyboard line: read the scancode from the keyboard controller,
    /// handle it, then acknowledge line 1.
    Keyboard,
    /// Nothing to do.
    Ignore,
}

/// Decides what an interrupt needs from its vector number: vectors 0 to 31
/// are CPU exceptions; 33 is the keyboard; 32 (the timer) and 34 to 47 are
/// hardware lines 0 and 2 to 15, acknowledged; everything else is left
/// alone.
pub fn interrupt_dispatch(frame: &InterruptFrame) -> (r: InterruptAction)
    ensures
        r == (if frame.interrupt_number <= 31 {
            InterruptAction::Exception(frame.interrupt_number as u8)
        } else if frame.interrupt_number == 33 {
            InterruptAction::Keyboard
        } else if 32 <= frame.interrupt_number <= 47 {
            InterruptAction::EndOfInterrupt((frame.interrupt_number - 32) as u8)
        } else {
            InterruptAction::Ignore
        }),
{
    let num = frame.interrupt_number;
    if num <= 31 {
        InterruptAction::Exception(num as u8)
    } else if num == 33 {
        InterruptAction::Keyboard
    } else if 32 <= num && num <= 47 {
        InterruptAction::EndOfInterrupt((num - 32) as u8)
    } else {
        InterruptAction::Ignore
    }
}

/// The name of CPU exception `num`.
pub open spec fn exception_name_spec(num: u8) -> Seq<char> {
    if num == 0 {
        "DE Divide Error"@
    } else if num == 1 {
        "DB Debug"@
    } else if num == 2 {
        "NMI"@
    } else if num == 3 {
        "BP Breakpoint"@
    } else if num == 4 {
        "OF Overflow"@
    } else if num == 5 {
        "BR Bound Range"@
    } else if num == 6 {
        "UD Invalid Opcode"@
    } else if num == 7 {
        "NM Device Not Available"@
    } else if num == 8 {
        "DF Double Fault"@
    } else if num == 9 {
        "Coprocessor Overrun"@
    } else if num == 10 {
        "TS Invalid TSS"@
    } else if num == 11 {
        "NP Segment Not Present"@
    } else if num == 12 {
        "SS Stack Fault"@
    } else if num == 13 {
        "GP General Protection Fault"@
    } else if num == 14 {
        "PF Page Fault"@
    } else if num == 16 {
        "MF x87 FPU Error"@
    } else if num == 17 {
        "AC Alignment Check"@
    } else if num == 18 {
        "MC Machine Check"@
    } else if num == 19 {
        "XM SIMD Exception"@
    } else if num == 20 {
        "VE Virtualization Exception"@
    } else if num == 21 {
        "CP Control Protection"@
    } else {
        "Unknown Exception"@
    }
}

/// The name of CPU exception `num`, as the exception report shows it.
pub fn exception_name(num: u8) -> (r: &'static str)
    ensures
        r@ == exception_name_spec(num),
{
    match num {
        0 => "DE Divide Error",
        1 => "DB Debug",
        2 => "NMI",
        3 => "BP Breakpoint",
        4 => "OF Overflow",
        5 => "BR Bound Range",
        6 => "UD Invalid Opcode",
        7 => "NM Device Not Available",
        8 => "DF Double Fault",
        9 => "Coprocessor Overrun",
        10 => "TS Invalid TSS",
        11 => "NP Segment Not Present",
        12 => "SS Stack Fault",
        13 => "GP General Protection Fault",
        14 => "PF Page Fault",
        16 => "MF x87 FPU Error",
        17 => "AC Alignment Check",
        18 => "MC Machine Check",
        19 => "XM SIMD Exception",
        20 => "VE Virtualization Exception",
        21 => "CP Control Protection",
        _ => "Unknown Exception",
    }
}

} // verus!
