use vishyos::cmd::{help_message, unknown_message};
use vishyos::cmd::{donut_cell, donut_frame, donut_shade, handle_command, parse_command, Command};
use vishyos::drivers::colors::{get_color, Color};
use vishyos::drivers::framebuffer::Framebuffer;
use vishyos::font::psf::FONT_MIN_LEN;
use vishyos::gdt::gdt::{gdt_table, init as gdt_init, GdtEntry};
use vishyos::interrupts::idt::{
    exception_name, init as idt_init, interrupt_dispatch, IdtEntry, InterruptAction, InterruptFrame,
};
use vishyos::interrupts::pic::{init as pic_init, PortWrite};
use vishyos::memory::mem::{memcmp, memcpy, memmove, memset, strlen};

#[test]
fn colors_are_argb() {
    assert_eq!(get_color(Color::Black), 0xFF000000);
    assert_eq!(get_color(Color::White), 0xFFFFFFFF);
    assert_eq!(get_color(Color::Red), 0xFFFF0000);
    assert_eq!(get_color(Color::Green), 0xFF00FF00);
    assert_eq!(get_color(Color::Blue), 0xFF0000FF);
    assert_eq!(get_color(Color::Yellow), 0xFFFFFF00);
    assert_eq!(get_color(Color::Magenta), 0xFFFF00FF);
    assert_eq!(get_color(Color::Cyan), 0xFF00FFFF);
    assert_eq!(get_color(Color::Orange), 0xFFAB5130);
}

#[test]
fn gdt_entries_encode() {
    let t = gdt_table();
    assert_eq!(t[0].to_u64(), 0);
    assert_eq!(t[1].to_u64(), 0x00AF_9A00_0000_FFFF);
    assert_eq!(t[2].to_u64(), 0x00CF_9200_0000_FFFF);
    assert_eq!(GdtEntry::kernel_code().access, 0x9A);
    assert_eq!(GdtEntry::null(), t[0]);
    let d = gdt_init(0xFFFF_8000_0010_0000);
    assert_eq!(d.size, 23);
    assert_eq!(d.offset, 0xFFFF_8000_0010_0000);
}

#[test]
fn idt_gate_splits_handler() {
    let e = IdtEntry::new(0xFFFF_8000_1234_5678);
    assert_eq!(e.offset_low, 0x5678);
    assert_eq!(e.offset_mid, 0x1234);
    assert_eq!(e.offset_high, 0xFFFF_8000);
    assert_eq!(e.selector, 0x08);
    assert_eq!(e.type_attr, 0x8E);
    assert_eq!(IdtEntry::missing().type_attr, 0);
    let stubs: Vec<u64> = (0..48u64).map(|i| 0x1000 + 16 * i).collect();
    let table = idt_init(&stubs);
    assert_eq!(table.len(), 256);
    assert_eq!(table[47].offset_low, 0x1000 + 16 * 47);
    assert_eq!(table[48], IdtEntry::missing());
}

fn frame(n: u64) -> InterruptFrame {
    InterruptFrame {
        rax: 0, rcx: 0, rdx: 0, rbx: 0, _rsp_unused: 0, rbp: 0, rsi: 0, rdi: 0, r8: 0, r9: 0,
        r10: 0, r11: 0, r12: 0, r13: 0, r14: 0, r15: 0, interrupt_number: n, error_code: 0,
        rip: 0, cs: 0, rflags: 0, rsp: 0, ss: 0,
    }
}

#[test]
fn dispatch_by_vector() {
    assert_eq!(interrupt_dispatch(&frame(0)), InterruptAction::Exception(0));
    assert_eq!(interrupt_dispatch(&frame(14)), InterruptAction::Exception(14));
    assert_eq!(interrupt_dispatch(&frame(31)), InterruptAction::Exception(31));
    assert_eq!(interrupt_dispatch(&frame(32)), InterruptAction::EndOfInterrupt(0));
    assert_eq!(interrupt_dispatch(&frame(33)), InterruptAction::Keyboard);
    assert_eq!(interrupt_dispatch(&frame(34)), InterruptAction::EndOfInterrupt(2));
    assert_eq!(interrupt_dispatch(&frame(47)), InterruptAction::EndOfInterrupt(15));
    assert_eq!(interrupt_dispatch(&frame(48)), InterruptAction::Ignore);
}

#[test]
fn exception_names() {
    assert_eq!(exception_name(0), "DE Divide Error");
    assert_eq!(exception_name(13), "GP General Protection Fault");
    assert_eq!(exception_name(14), "PF Page Fault");
    assert_eq!(exception_name(15), "Unknown Exception");
    assert_eq!(exception_name(21), "CP Control Protection");
    assert_eq!(exception_name(200), "Unknown Exception");
}

#[test]
fn pic_remap_sequence() {
    let seq = pic_init(0xB8, 0x8E);
    assert_eq!(seq.len(), 10);
    assert_eq!(seq[0], PortWrite { port: 0x20, value: 0x11, wait: true });
    assert_eq!(seq[2], PortWrite { port: 0x21, value: 0x20, wait: true });
    assert_eq!(seq[3], PortWrite { port: 0xA1, value: 0x28, wait: true });
    assert_eq!(seq[8], PortWrite { port: 0x21, value: 0xB8, wait: false });
    assert_eq!(seq[9], PortWrite { port: 0xA1, value: 0x8E, wait: false });
}

#[test]
fn commands_parse_exactly() {
    assert_eq!(parse_command(b"help"), Command::Help);
    assert_eq!(parse_command(b"clear"), Command::Clear);
    assert_eq!(parse_command(b"donut"), Command::Donut);
    assert_eq!(parse_command(b"help "), Command::Unknown);
    assert_eq!(parse_command(b""), Command::Unknown);
    assert_eq!(parse_command(b"HELP"), Command::Unknown);
}

#[test]
fn handle_command_prints_and_clears() {
    let mut fb = Framebuffer::new(vec![0xFFu8; FONT_MIN_LEN]);
    fb.init(4096, 1024, 200, vec![0; 1024 * 200]);
    assert_eq!(handle_command(&mut fb, b"nope"), Command::Unknown);
    // "\nUnknown command\n": two newlines, 15 characters
    assert_eq!(fb.cursor_position(), (0, 32));
    assert_eq!(handle_command(&mut fb, b"help"), Command::Help);
    assert_eq!(fb.cursor_position(), (0, 32 + 16 * 5));
    assert_eq!(handle_command(&mut fb, b"clear"), Command::Clear);
    assert_eq!(fb.cursor_position(), (0, 0));
    assert!(fb.pixel_buffer().iter().all(|&p| p == 0));
    assert_eq!(handle_command(&mut fb, b"donut"), Command::Donut);
}

#[test]
fn donut_helpers() {
    assert_eq!(donut_cell(1, 1), Some(81));
    assert_eq!(donut_cell(0, 5), None);
    assert_eq!(donut_cell(79, 21), Some(79 + 80 * 21));
    assert_eq!(donut_cell(80, 3), None);
    assert_eq!(donut_cell(3, 22), None);
    assert_eq!(donut_cell(-4, 3), None);
    assert_eq!(donut_shade(0), b'.');
    assert_eq!(donut_shade(11), b'@');
    assert_eq!(donut_shade(500), b'@');
    let mut out = vec![b' '; 1760];
    out[81] = b'#';
    let f = donut_frame(&out);
    assert_eq!(f.len(), 22 * 81);
    assert_eq!(f[80], b'\n');
    assert_eq!(f[81 + 1], b'#');
    assert_eq!(f[22 * 81 - 1], b'\n');
}

#[test]
fn mem_copy_set_move() {
    let mut d = vec![0u8; 6];
    memcpy(&mut d, &[1, 2, 3, 4], 3);
    assert_eq!(d, vec![1, 2, 3, 0, 0, 0]);
    memset(&mut d, 0x1FF, 2);
    assert_eq!(d, vec![0xFF, 0xFF, 3, 0, 0, 0]);
    let mut b = vec![1u8, 2, 3, 4, 5, 6];
    memmove(&mut b, 2, 0, 4);
    assert_eq!(b, vec![1, 2, 1, 2, 3, 4]);
    let mut c = vec![1u8, 2, 3, 4, 5, 6];
    memmove(&mut c, 0, 2, 4);
    assert_eq!(c, vec![3, 4, 5, 6, 5, 6]);
}

#[test]
fn mem_strlen_and_compare() {
    assert_eq!(strlen(b"abc\0def\0"), 3);
    assert_eq!(strlen(b"\0"), 0);
    assert_eq!(memcmp(b"abcd", b"abcd", 4), 0);
    assert_eq!(memcmp(b"abcd", b"abzd", 4), (b'c' as i32) - (b'z' as i32));
    assert_eq!(memcmp(b"abcd", b"abzd", 2), 0);
    assert_eq!(memcmp(b"b", b"a", 1), 1);
}

#[test]
fn command_messages() {
    assert_eq!(unknown_message(), "\nUnknown command\n");
    assert!(help_message().starts_with("\nCommands:\n help"));
    assert!(help_message().ends_with(" donut - spinning donut\n"));
}

#[test]
fn idt_gate_words() {
    let e = IdtEntry::new(0xFFFF_8000_1234_5678);
    assert_eq!(e.encode(), (0x1234_8E00_0008_5678, 0xFFFF_8000));
    assert_eq!(IdtEntry::missing().encode(), (0, 0));
}
