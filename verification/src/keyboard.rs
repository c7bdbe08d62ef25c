use vstd::prelude::*;

verus! {

/// Capacity of the command-line buffer.
pub const INPUT_BUFFER_SIZE: usize = 256;

/// Number of scancodes that map to a byte.
pub const KEYMAP_LEN: usize = 58;

/// Scancode-set-1 make codes to bytes, without shift (0: no byte).
pub open spec fn unshifted_map() -> Seq<u8> {
    seq![
        0u8, 0, 0x31, 0x32, 0x33, 0x34, 0x35, 0x36,
        0x37, 0x38, 0x39, 0x30, 0x2D, 0x3D, 0x08, 0x09,
        0x71, 0x77, 0x65, 0x72, 0x74, 0x79, 0x75, 0x69,
        0x6F, 0x70, 0x5B, 0x5D, 0x0A, 0, 0x61, 0x73,
        0x64, 0x66, 0x67, 0x68, 0x6A, 0x6B, 0x6C, 0x3B,
        0x27, 0x60, 0, 0x5C, 0x7A, 0x78, 0x63, 0x76,
        0x62, 0x6E, 0x6D, 0x2C, 0x2E, 0x2F, 0, 0x2A,
        0, 0x20,
    ]
}

/// Scancode-set-1 make codes to bytes, with shift held (0: no byte).
pub open spec fn shifted_map() -> Seq<u8> {
    seq![
        0u8, 0, 0x21, 0x40, 0x23, 0x24, 0x25, 0x5E,
        0x26, 0x2A, 0x28, 0x29, 0x5F, 0x2B, 0x08, 0x09,
        0x51, 0x57, 0x45, 0x52, 0x54, 0x59, 0x55, 0x49,
        0x4F, 0x50, 0x7B, 0x7D, 0x0A, 0, 0x41, 0x53,
        0x44, 0x46, 0x47, 0x48, 0x4A, 0x4B, 0x4C, 0x3A,
        0x22, 0x7E, 0, 0x7C, 0x5A, 0x58, 0x43, 0x56,
        0x42, 0x4E, 0x4D, 0x3C, 0x3E, 0x3F, 0, 0x2A,
        0, 0x20,
    ]
}

/// The byte a make code produces, 0 when it produces none.
pub open spec fn key_byte(shift: bool, scancode: u8) -> u8 {
    if scancode >= 58 {
        0
    } else if shift {
        shifted_map()[scancode as int]
    } else {
        unshifted_map()[scancode as int]
    }
}

/// Make code of the left shift key.
pub const LEFT_SHIFT: u8 = 0x2A;
/// Make code of the right shift key.
pub const RIGHT_SHIFT: u8 = 0x36;

/// What the screen has to do after a scancode.
#[derive(Debug, PartialEq, Eq)]
pub enum KeyAction {
    /// Nothing to show.
    Ignore,
    /// Erase the character before the cursor.
    Backspace,
    /// Backspace on an empty line: nothing to erase.
    BackspaceAtStart,
    /// Run this command line, then show a fresh prompt.
    Submit(Vec<u8>),
    /// Show this byte.
    Echo(u8),
}

/// A `KeyAction` with the submitted line as a sequence.
pub enum KeyEvent {
    Ignore,
    Backspace,
    BackspaceAtStart,
    Submit(Seq<u8>),
    Echo(u8),
}

impl View for KeyAction {
    type V = KeyEvent;

    open spec fn view(&self) -> KeyEvent {
        match self {
            KeyAction::Ignore => KeyEvent::Ignore,
            KeyAction::Backspace => KeyEvent::Backspace,
            KeyAction::BackspaceAtStart => KeyEvent::BackspaceAtStart,
            KeyAction::Submit(v) => KeyEvent::Submit(v@),
            KeyAction::Echo(b) => KeyEvent::Echo(*b),
        }
    }
}

/// The keyboard's state: whether shift is held, how many characters the
/// current line shows on screen, and the bytes of the command line kept so
/// far (at most 256).
pub struct KeyState {
    pub shift: bool,
    pub line_len: usize,
    pub input: Seq<u8>,
}

/// The next state and the screen action for one scancode.
pub open spec fn key_step(s: KeyState, scancode: u8) -> (KeyState, KeyEvent) {
    if scancode & 0x80 != 0 {
        let key = scancode & 0x7F;
        let shift = if key == LEFT_SHIFT || key == RIGHT_SHIFT {
            false
        } else {
            s.shift
        };
        (KeyState { shift, ..s }, KeyEvent::Ignore)
    } else if scancode == LEFT_SHIFT || scancode == RIGHT_SHIFT {
        (KeyState { shift: true, ..s }, KeyEvent::Ignore)
    } else {
        let byte = key_byte(s.shift, scancode);
        if byte == 0 {
            (s, KeyEvent::Ignore)
        } else if byte == 0x08 {
            if s.line_len > 0 {
                let input = if s.input.len() >= 1 {
                    s.input.drop_last()
                } else {
                    s.input
                };
                (KeyState { line_len: (s.line_len - 1) as usize, input, ..s }, KeyEvent::Backspace)
            } else {
                (s, KeyEvent::BackspaceAtStart)
            }
        } else if byte == 0x0A {
            (KeyState { line_len: 0, input: seq![], ..s }, KeyEvent::Submit(s.input))
        } else {
            let input = if s.input.len() < 256 {
                s.input.push(byte)
            } else {
                s.input
            };
            let line_len = if s.line_len == usize::MAX {
                0
            } else {
                (s.line_len + 1) as usize
            };
            (KeyState { line_len, input, ..s }, KeyEvent::Echo(byte))
        }
    }
}

/// The keyboard driver: shift state and the command line being typed.
pub struct Keyboard {
    shift: bool,
    line_len: usize,
    input: Vec<u8>,
}

impl Keyboard {
    /// The command line never exceeds its buffer.
    pub closed spec fn wf(&self) -> bool {
        self.input.len() <= INPUT_BUFFER_SIZE
    }

    pub closed spec fn state(&self) -> KeyState {
        KeyState { shift: self.shift, line_len: self.line_len, input: self.input@ }
    }

    /// No key held, nothing typed.
    pub fn new() -> (r: Self)
        ensures
            r.wf(),
            r.state() == (KeyState { shift: false, line_len: 0, input: seq![] }),
    {
        Keyboard { shift: false, line_len: 0, input: Vec::new() }
    }

    /// The bytes of the command line typed so far.
    pub fn input(&self) -> (r: &[u8])
        ensures
            r@ == self.state().input,
    {
        self.input.as_slice()
    }

    fn lookup(shift: bool, scancode: u8) -> (r: u8)
        ensures
            r == key_byte(shift, scancode),
    {
        if scancode as usize >= KEYMAP_LEN {
            return 0;
        }
        let unshifted: [u8; 58] = [
            0u8, 0, 0x31, 0x32, 0x33, 0x34, 0x35, 0x36,
            0x37, 0x38, 0x39, 0x30, 0x2D, 0x3D, 0x08, 0x09,
            0x71, 0x77, 0x65, 0x72, 0x74, 0x79, 0x75, 0x69,
            0x6F, 0x70, 0x5B, 0x5D, 0x0A, 0, 0x61, 0x73,
            0x64, 0x66, 0x67, 0x68, 0x6A, 0x6B, 0x6C, 0x3B,
            0x27, 0x60, 0, 0x5C, 0x7A, 0x78, 0x63, 0x76,
            0x62, 0x6E, 0x6D, 0x2C, 0x2E, 0x2F, 0, 0x2A,
            0, 0x20,
        ];
        let shifted: [u8; 58] = [
            0u8, 0, 0x21, 0x40, 0x23, 0x24, 0x25, 0x5E,
            0x26, 0x2A, 0x28, 0x29, 0x5F, 0x2B, 0x08, 0x09,
            0x51, 0x57, 0x45, 0x52, 0x54, 0x59, 0x55, 0x49,
            0x4F, 0x50, 0x7B, 0x7D, 0x0A, 0, 0x41, 0x53,
            0x44, 0x46, 0x47, 0x48, 0x4A, 0x4B, 0x4C, 0x3A,
            0x22, 0x7E, 0, 0x7C, 0x5A, 0x58, 0x43, 0x56,
            0x42, 0x4E, 0x4D, 0x3C, 0x3E, 0x3F, 0, 0x2A,
            0, 0x20,
        ];
        proof {
            assert(unshifted@ =~= unshifted_map());
            assert(shifted@ =~= shifted_map());
        }
        if shift {
            shifted[scancode as usize]
        } else {
            unshifted[scancode as usize]
        }
    }

    /// Handles one scancode: tracks shift, edits the command line, and says
    /// what the screen has to do. Releases only matter for the shift keys;
    /// backspace removes the last byte of the line; enter hands over the line
    /// and starts a new one; other keys append their byte while the buffer
    /// has room (the screen shows them either way).
    pub fn process_scancode(&mut self, scancode: u8) -> (r: KeyAction)
        requires
            old(self).wf(),
        ensures
            final(self).wf(),
            (final(self).state(), r@) == key_step(old(self).state(), scancode),
    {
        if scancode & 0x80 != 0 {
            let key = scancode & 0x7F;
            if key == LEFT_SHIFT || key == RIGHT_SHIFT {
                self.shift = false;
            }
            return KeyAction::Ignore;
        }
        if scancode == LEFT_SHIFT || scancode == RIGHT_SHIFT {
            self.shift = true;
            return KeyAction::Ignore;
        }
        let byte = Self::lookup(self.shift, scancode);
        if byte == 0 {
            return KeyAction::Ignore;
        }
        if byte == 0x08 {
            if self.line_len > 0 {
                if self.input.len() >= 1 {
                    self.input.pop();
                }
                self.line_len = self.line_len - 1;
                KeyAction::Backspace
            } else {
                KeyAction::BackspaceAtStart
            }
        } else if byte == 0x0A {
            let mut line: Vec<u8> = Vec::new();
            core::mem::swap(&mut line, &mut self.input);
            self.line_len = 0;
            KeyAction::Submit(line)
        } else {
            if self.input.len() < INPUT_BUFFER_SIZE {
                self.input.push(byte);
            }
            self.line_len = if self.line_len == usize::MAX {
                0
            } else {
                self.line_len + 1
            };
            KeyAction::Echo(byte)
        }
    }
}

/// Make code of the backspace key.
pub const BACKSPACE_KEY: u8 = 0x0E;

/// Typing a character and then backspace leaves the keyboard as it was,
/// provided the buffer had room and the line count does not wrap.
pub proof fn lemma_type_then_backspace(s: KeyState, scancode: u8)
    requires
        s.input.len() < 256,
        s.line_len < usize::MAX,
        key_step(s, scancode).1 is Echo,
    ensures
        key_step(key_step(s, scancode).0, BACKSPACE_KEY).0 == s,
        key_step(key_step(s, scancode).0, BACKSPACE_KEY).1 is Backspace,
{
    let s1 = key_step(s, scancode).0;
    assert(s1.input.drop_last() =~= s.input);
    assert(0x0Eu8 & 0x80u8 == 0) by (bit_vector);
    assert(shifted_map()[14] == 0x08);
    assert(unshifted_map()[14] == 0x08);
    assert(key_byte(s1.shift, BACKSPACE_KEY) == 0x08);
}

/// Enter hands over exactly the bytes typed since the last enter and clears
/// the line.
pub proof fn lemma_enter_submits_line(s: KeyState)
    requires
        !s.shift,
    ensures
        key_step(s, 0x1C).1 == KeyEvent::Submit(s.input),
        key_step(s, 0x1C).0.input == Seq::<u8>::empty(),
        key_step(s, 0x1C).0.line_len == 0,
{
    assert(0x1Cu8 & 0x80u8 == 0) by (bit_vector);
    assert(unshifted_map()[0x1C] == 0x0A);
    assert(key_byte(false, 0x1C) == 0x0A);
}

/// The command line kept is never longer than the line shown on screen nor
/// than its 256-byte buffer, and every scancode keeps it so, unless the line
/// count wraps around at `usize::MAX`.
pub proof fn lemma_line_within_shown(s: KeyState, scancode: u8)
    requires
        s.input.len() <= s.line_len,
        s.input.len() <= 256,
        s.line_len < usize::MAX,
    ensures
        key_step(s, scancode).0.input.len() <= key_step(s, scancode).0.line_len,
        key_step(s, scancode).0.input.len() <= 256,
{
}

/// `b` is a lower-case ASCII letter.
pub open spec fn is_lower_letter(b: u8) -> bool {
    0x61 <= b <= 0x7A
}

/// The make codes of the letter keys, row by row from the top, each row from
/// the left.
pub open spec fn letter_keys() -> Seq<u8> {
    seq![0x10u8, 0x11, 0x12, 0x13, 0x14, 0x15, 0x16, 0x17, 0x18, 0x19, 0x1E, 0x1F, 0x20, 0x21, 0x22, 0x23, 0x24, 0x25, 0x26, 0x2C, 0x2D, 0x2E, 0x2F, 0x30, 0x31, 0x32]
}

proof fn lemma_letter_key_bytes()
    ensures
        key_byte(false, 0x10u8) == 0x71u8, key_byte(true, 0x10u8) == 0x51u8,
        key_byte(false, 0x11u8) == 0x77u8, key_byte(true, 0x11u8) == 0x57u8,
        key_byte(false, 0x12u8) == 0x65u8, key_byte(true, 0x12u8) == 0x45u8,
        key_byte(false, 0x13u8) == 0x72u8, key_byte(true, 0x13u8) == 0x52u8,
        key_byte(false, 0x14u8) == 0x74u8, key_byte(true, 0x14u8) == 0x54u8,
        key_byte(false, 0x15u8) == 0x79u8, key_byte(true, 0x15u8) == 0x59u8,
        key_byte(false, 0x16u8) == 0x75u8, key_byte(true, 0x16u8) == 0x55u8,
        key_byte(false, 0x17u8) == 0x69u8, key_byte(true, 0x17u8) == 0x49u8,
        key_byte(false, 0x18u8) == 0x6Fu8, key_byte(true, 0x18u8) == 0x4Fu8,
        key_byte(false, 0x19u8) == 0x70u8, key_byte(true, 0x19u8) == 0x50u8,
        key_byte(false, 0x1Eu8) == 0x61u8, key_byte(true, 0x1Eu8) == 0x41u8,
        key_byte(false, 0x1Fu8) == 0x73u8, key_byte(true, 0x1Fu8) == 0x53u8,
        key_byte(false, 0x20u8) == 0x64u8, key_byte(true, 0x20u8) == 0x44u8,
        key_byte(false, 0x21u8) == 0x66u8, key_byte(true, 0x21u8) == 0x46u8,
        key_byte(false, 0x22u8) == 0x67u8, key_byte(true, 0x22u8) == 0x47u8,
        key_byte(false, 0x23u8) == 0x68u8, key_byte(true, 0x23u8) == 0x48u8,
        key_byte(false, 0x24u8) == 0x6Au8, key_byte(true, 0x24u8) == 0x4Au8,
        key_byte(false, 0x25u8) == 0x6Bu8, key_byte(true, 0x25u8) == 0x4Bu8,
        key_byte(false, 0x26u8) == 0x6Cu8, key_byte(true, 0x26u8) == 0x4Cu8,
        key_byte(false, 0x2Cu8) == 0x7Au8, key_byte(true, 0x2Cu8) == 0x5Au8,
        key_byte(false, 0x2Du8) == 0x78u8, key_byte(true, 0x2Du8) == 0x58u8,
        key_byte(false, 0x2Eu8) == 0x63u8, key_byte(true, 0x2Eu8) == 0x43u8,
        key_byte(false, 0x2Fu8) == 0x76u8, key_byte(true, 0x2Fu8) == 0x56u8,
        key_byte(false, 0x30u8) == 0x62u8, key_byte(true, 0x30u8) == 0x42u8,
        key_byte(false, 0x31u8) == 0x6Eu8, key_byte(true, 0x31u8) == 0x4Eu8,
        key_byte(false, 0x32u8) == 0x6Du8, key_byte(true, 0x32u8) == 0x4Du8,
{
    assert(0x80u8 & 0u8 == 0u8) by (bit_vector);
}

/// The letter keys follow the US layout: without shift they give, row by
/// row, "qwertyuiop", "asdfghjkl" and "zxcvbnm"; every lower-case letter
/// comes from exactly one of them; and with shift each gives its letter in
/// upper case.
pub proof fn lemma_letter_keys_us_layout()
    ensures
        forall|i: int| 0 <= i < 26 ==> key_byte(false, #[trigger] letter_keys()[i])
            == "qwertyuiopasdfghjklzxcvbnm"@[i] as u8,
        forall|i: int| 0 <= i < 26 ==> is_lower_letter(key_byte(false, #[trigger] letter_keys()[i]))
            && key_byte(true, letter_keys()[i]) == key_byte(false, letter_keys()[i]) - 32,
        forall|l: u8| #[trigger] is_lower_letter(l) ==> exists|i: int| 0 <= i < 26 && key_byte(false, #[trigger] letter_keys()[i]) == l,
{
    reveal_strlit("qwertyuiopasdfghjklzxcvbnm");
    lemma_letter_key_bytes();
    assert forall|i: int| 0 <= i < 26 implies key_byte(false, #[trigger] letter_keys()[i])
        == "qwertyuiopasdfghjklzxcvbnm"@[i] as u8 && is_lower_letter(key_byte(false, letter_keys()[i]))
        && key_byte(true, letter_keys()[i]) == key_byte(false, letter_keys()[i]) - 32 by {
        if i == 0 {
            assert(letter_keys()[0] == 0x10u8);
            assert("qwertyuiopasdfghjklzxcvbnm"@[0] == 'q');
        } else if i == 1 {
            assert(letter_keys()[1] == 0x11u8);
            assert("qwertyuiopasdfghjklzxcvbnm"@[1] == 'w');
        } else if i == 2 {
            assert(letter_keys()[2] == 0x12u8);
            assert("qwertyuiopasdfghjklzxcvbnm"@[2] == 'e');
        } else if i == 3 {
            assert(letter_keys()[3] == 0x13u8);
            assert("qwertyuiopasdfghjklzxcvbnm"@[3] == 'r');
        } else if i == 4 {
            assert(letter_keys()[4] == 0x14u8);
            assert("qwertyuiopasdfghjklzxcvbnm"@[4] == 't');
        } else if i == 5 {
            assert(letter_keys()[5] == 0x15u8);
            assert("qwertyuiopasdfghjklzxcvbnm"@[5] == 'y');
        } else if i == 6 {
            assert(letter_keys()[6] == 0x16u8);
            assert("qwertyuiopasdfghjklzxcvbnm"@[6] == 'u');
        } else if i == 7 {
            assert(letter_keys()[7] == 0x17u8);
            assert("qwertyuiopasdfghjklzxcvbnm"@[7] == 'i');
        } else if i == 8 {
            assert(letter_keys()[8] == 0x18u8);
            assert("qwertyuiopasdfghjklzxcvbnm"@[8] == 'o');
        } else if i == 9 {
            assert(letter_keys()[9] == 0x19u8);
            assert("qwertyuiopasdfghjklzxcvbnm"@[9] == 'p');
        } else if i == 10 {
            assert(letter_keys()[10] == 0x1Eu8);
            assert("qwertyuiopasdfghjklzxcvbnm"@[10] == 'a');
        } else if i == 11 {
            assert(letter_keys()[11] == 0x1Fu8);
            assert("qwertyuiopasdfghjklzxcvbnm"@[11] == 's');
        } else if i == 12 {
            assert(letter_keys()[12] == 0x20u8);
            assert("qwertyuiopasdfghjklzxcvbnm"@[12] == 'd');
        } else if i == 13 {
            assert(letter_keys()[13] == 0x21u8);
            assert("qwertyuiopasdfghjklzxcvbnm"@[13] == 'f');
        } else if i == 14 {
            assert(letter_keys()[14] == 0x22u8);
            assert("qwertyuiopasdfghjklzxcvbnm"@[14] == 'g');
        } else if i == 15 {
            assert(letter_keys()[15] == 0x23u8);
            assert("qwertyuiopasdfghjklzxcvbnm"@[15] == 'h');
        } else if i == 16 {
            assert(letter_keys()[16] == 0x24u8);
            assert("qwertyuiopasdfghjklzxcvbnm"@[16] == 'j');
        } else if i == 17 {
            assert(letter_keys()[17] == 0x25u8);
            assert("qwertyuiopasdfghjklzxcvbnm"@[17] == 'k');
        } else if i == 18 {
            assert(letter_keys()[18] == 0x26u8);
            assert("qwertyuiopasdfghjklzxcvbnm"@[18] == 'l');
        } else if i == 19 {
            assert(letter_keys()[19] == 0x2Cu8);
            assert("qwertyuiopasdfghjklzxcvbnm"@[19] == 'z');
        } else if i == 20 {
            assert(letter_keys()[20] == 0x2Du8);
            assert("qwertyuiopasdfghjklzxcvbnm"@[20] == 'x');
        } else if i == 21 {
            assert(letter_keys()[21] == 0x2Eu8);
            assert("qwertyuiopasdfghjklzxcvbnm"@[21] == 'c');
        } else if i == 22 {
            assert(letter_keys()[22] == 0x2Fu8);
            assert("qwertyuiopasdfghjklzxcvbnm"@[22] == 'v');
        } else if i == 23 {
            assert(letter_keys()[23] == 0x30u8);
            assert("qwertyuiopasdfghjklzxcvbnm"@[23] == 'b');
        } else if i == 24 {
            assert(letter_keys()[24] == 0x31u8);
            assert("qwertyuiopasdfghjklzxcvbnm"@[24] == 'n');
        } else if i == 25 {
            assert(letter_keys()[25] == 0x32u8);
            assert("qwertyuiopasdfghjklzxcvbnm"@[25] == 'm');
        }
    }
    assert forall|l: u8| #[trigger] is_lower_letter(l) implies exists|i: int| 0 <= i < 26 && key_byte(false, #[trigger] letter_keys()[i]) == l by {
        if l == 0x61u8 {
            assert(key_byte(false, letter_keys()[10]) == l);
        } else if l == 0x62u8 {
            assert(key_byte(false, letter_keys()[23]) == l);
        } else if l == 0x63u8 {
            assert(key_byte(false, letter_keys()[21]) == l);
        } else if l == 0x64u8 {
            assert(key_byte(false, letter_keys()[12]) == l);
        } else if l == 0x65u8 {
            assert(key_byte(false, letter_keys()[2]) == l);
        } else if l == 0x66u8 {
            assert(key_byte(false, letter_keys()[13]) == l);
        } else if l == 0x67u8 {
            assert(key_byte(false, letter_keys()[14]) == l);
        } else if l == 0x68u8 {
            assert(key_byte(false, letter_keys()[15]) == l);
        } else if l == 0x69u8 {
            assert(key_byte(false, letter_keys()[7]) == l);
        } else if l == 0x6Au8 {
            assert(key_byte(false, letter_keys()[16]) == l);
        } else if l == 0x6Bu8 {
            assert(key_byte(false, letter_keys()[17]) == l);
        } else if l == 0x6Cu8 {
            assert(key_byte(false, letter_keys()[18]) == l);
        } else if l == 0x6Du8 {
            assert(key_byte(false, letter_keys()[25]) == l);
        } else if l == 0x6Eu8 {
            assert(key_byte(false, letter_keys()[24]) == l);
        } else if l == 0x6Fu8 {
            assert(key_byte(false, letter_keys()[8]) == l);
        } else if l == 0x70u8 {
            assert(key_byte(false, letter_keys()[9]) == l);
        } else if l == 0x71u8 {
            assert(key_byte(false, letter_keys()[0]) == l);
        } else if l == 0x72u8 {
            assert(key_byte(false, letter_keys()[3]) == l);
        } else if l == 0x73u8 {
            assert(key_byte(false, letter_keys()[11]) == l);
        } else if l == 0x74u8 {
            assert(key_byte(false, letter_keys()[4]) == l);
        } else if l == 0x75u8 {
            assert(key_byte(false, letter_keys()[6]) == l);
        } else if l == 0x76u8 {
            assert(key_byte(false, letter_keys()[22]) == l);
        } else if l == 0x77u8 {
            assert(key_byte(false, letter_keys()[1]) == l);
        } else if l == 0x78u8 {
            assert(key_byte(false, letter_keys()[20]) == l);
        } else if l == 0x79u8 {
            assert(key_byte(false, letter_keys()[5]) == l);
        } else if l == 0x7Au8 {
            assert(key_byte(false, letter_keys()[19]) == l);
        }
    }
}

/// A key release never changes the command line or the line count.
pub proof fn lemma_release_keeps_line(s: KeyState, scancode: u8)
    requires
        scancode & 0x80 != 0,
    ensures
        key_step(s, scancode).0.input == s.input,
        key_step(s, scancode).0.line_len == s.line_len,
        key_step(s, scancode).1 is Ignore,
{
}

} // verus!
