use vishyos::keyboard::{KeyAction, Keyboard};

fn typed(kb: &mut Keyboard, codes: &[u8]) -> Vec<KeyAction> {
    codes.iter().map(|&c| kb.process_scancode(c)).collect()
}

#[test]
fn typing_a_command_and_enter_submits_it() {
    let mut kb = Keyboard::new();
    let actions = typed(&mut kb, &[0x23, 0x12, 0x26, 0x19]);
    assert_eq!(
        actions,
        vec![KeyAction::Echo(b'h'), KeyAction::Echo(b'e'), KeyAction::Echo(b'l'), KeyAction::Echo(b'p')]
    );
    assert_eq!(kb.input(), b"help");
    assert_eq!(kb.process_scancode(0x1C), KeyAction::Submit(b"help".to_vec()));
    assert_eq!(kb.input(), b"");
}

#[test]
fn shift_selects_upper_case_until_released() {
    let mut kb = Keyboard::new();
    assert_eq!(kb.process_scancode(0x2A), KeyAction::Ignore);
    assert_eq!(kb.process_scancode(0x1E), KeyAction::Echo(b'A'));
    assert_eq!(kb.process_scancode(0x02), KeyAction::Echo(b'!'));
    // releasing another key keeps shift
    assert_eq!(kb.process_scancode(0x9E), KeyAction::Ignore);
    assert_eq!(kb.process_scancode(0x1E), KeyAction::Echo(b'A'));
    // releasing shift
    assert_eq!(kb.process_scancode(0xAA), KeyAction::Ignore);
    assert_eq!(kb.process_scancode(0x1E), KeyAction::Echo(b'a'));
    // right shift works the same way
    kb.process_scancode(0x36);
    assert_eq!(kb.process_scancode(0x35), KeyAction::Echo(b'?'));
    kb.process_scancode(0xB6);
    assert_eq!(kb.process_scancode(0x35), KeyAction::Echo(b'/'));
    assert_eq!(kb.input(), b"A!Aa?/");
}

#[test]
fn backspace_removes_last_byte() {
    let mut kb = Keyboard::new();
    assert_eq!(kb.process_scancode(0x0E), KeyAction::BackspaceAtStart);
    typed(&mut kb, &[0x2E, 0x26]);
    assert_eq!(kb.input(), b"cl");
    assert_eq!(kb.process_scancode(0x0E), KeyAction::Backspace);
    assert_eq!(kb.input(), b"c");
    assert_eq!(kb.process_scancode(0x0E), KeyAction::Backspace);
    assert_eq!(kb.process_scancode(0x0E), KeyAction::BackspaceAtStart);
    assert_eq!(kb.input(), b"");
}

#[test]
fn unmapped_keys_are_ignored() {
    let mut kb = Keyboard::new();
    assert_eq!(kb.process_scancode(0x01), KeyAction::Ignore); // escape
    assert_eq!(kb.process_scancode(0x1D), KeyAction::Ignore); // control
    assert_eq!(kb.process_scancode(0x3A), KeyAction::Ignore); // past the map
    assert_eq!(kb.process_scancode(0x39), KeyAction::Echo(b' '));
    assert_eq!(kb.process_scancode(0x0F), KeyAction::Echo(b'\t'));
    assert_eq!(kb.input(), b" \t");
}

#[test]
fn buffer_keeps_at_most_256_bytes() {
    let mut kb = Keyboard::new();
    for _ in 0..300 {
        assert_eq!(kb.process_scancode(0x1E), KeyAction::Echo(b'a'));
    }
    assert_eq!(kb.input().len(), 256);
    // the screen line is longer than the buffer: backspace still erases
    for _ in 0..300 {
        assert_eq!(kb.process_scancode(0x0E), KeyAction::Backspace);
    }
    assert_eq!(kb.input().len(), 0);
    assert_eq!(kb.process_scancode(0x0E), KeyAction::BackspaceAtStart);
}

#[test]
fn kept_line_never_outgrows_shown_line() {
    let mut kb = Keyboard::new();
    typed(&mut kb, &[0x1E, 0x30, 0x2E]);
    assert_eq!(kb.input(), b"abc");
    for _ in 0..3 {
        assert_eq!(kb.process_scancode(0x0E), KeyAction::Backspace);
    }
    assert_eq!(kb.input(), b"");
    assert_eq!(kb.process_scancode(0x0E), KeyAction::BackspaceAtStart);
}
