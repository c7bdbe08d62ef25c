use vstd::prelude::*;
use vstd::string::StringSliceAdditionalSpecFns;
use crate::drivers::framebuffer::Framebuffer;
use crate::font::psf::{
    backspace_target, cell_fits, cursor_bits, glyph, lemma_text_run_concat, lemma_text_run_ok_concat,
    lemma_text_run_pos, paint, pos_run, text_run, text_run_ok, text_step, TextPos,
};
use crate::keyboard::KeyAction;

verus! {

/// The shell's commands.
#[derive(Copy, Clone, Debug, PartialEq, Eq, Structural)]
pub enum Command {
    /// `help`: list the commands.
    Help,
    /// `clear`: blank the screen.
    Clear,
    /// `donut`: run the spinning-donut animation.
    Donut,
    /// Anything else.
    Unknown,
}

/// The command a line names: exactly `help`, `clear` or `donut`.
pub open spec fn command_of(line: Seq<u8>) -> Command {
    if line == seq![0x68u8, 0x65, 0x6C, 0x70] {
        Command::Help
    } else if line == seq![0x63u8, 0x6C, 0x65, 0x61, 0x72] {
        Command::Clear
    } else if line == seq![0x64u8, 0x6F, 0x6E, 0x75, 0x74] {
        Command::Donut
    } else {
        Command::Unknown
    }
}

/// The text `help` prints.
pub open spec fn help_text() -> Seq<u8> {
    "\nCommands:\n help  - show this message\n clear - clear screen\n donut - spinning donut\n".spec_bytes()
}

/// The text an unknown command prints.
pub open spec fn unknown_text() -> Seq<u8> {
    "\nUnknown command\n".spec_bytes()
}

/// White, the colour of the shell's output.
pub const WHITE: u32 = 0xFFFFFFFF;

fn bytes_equal(a: &[u8], b: &[u8]) -> (r: bool)
    ensures
        r == (a@ == b@),
{
    if a.len() != b.len() {
        return false;
    }
    let mut i: usize = 0;
    while i < a.len()
        invariant
            a@.len() == b@.len(),
            i <= a@.len(),
            forall|j: int| 0 <= j < i ==> a@[j] == b@[j],
        decreases a@.len() - i,
    {
        if a[i] != b[i] {
            return false;
        }
        i = i + 1;
    }
    proof {
        assert(a@ =~= b@);
    }
    true
}

/// Which command a line names.
pub fn parse_command(line: &[u8]) -> (r: Command)
    ensures
        r == command_of(line@),
{
    let help = [0x68u8, 0x65, 0x6C, 0x70];
    let clear = [0x63u8, 0x6C, 0x65, 0x61, 0x72];
    let donut = [0x64u8, 0x6F, 0x6E, 0x75, 0x74];
    proof {
        assert(help@ =~= seq![0x68u8, 0x65, 0x6C, 0x70]);
        assert(clear@ =~= seq![0x63u8, 0x6C, 0x65, 0x61, 0x72]);
        assert(donut@ =~= seq![0x64u8, 0x6F, 0x6E, 0x75, 0x74]);
    }
    if bytes_equal(line, help.as_slice()) {
        Command::Help
    } else if bytes_equal(line, clear.as_slice()) {
        Command::Clear
    } else if bytes_equal(line, donut.as_slice()) {
        Command::Donut
    } else {
        Command::Unknown
    }
}

/// The text `help` prints.
pub fn help_message() -> (r: &'static str)
    ensures
        r.spec_bytes() == help_text(),
{
    "\nCommands:\n help  - show this message\n clear - clear screen\n donut - spinning donut\n"
}

/// The text an unknown command prints.
pub fn unknown_message() -> (r: &'static str)
    ensures
        r.spec_bytes() == unknown_text(),
{
    "\nUnknown command\n"
}

fn cmd_help(fb: &mut Framebuffer)
    requires
        old(fb).wf(),
        old(fb).print_fits_spec(help_text()),
    ensures
        final(fb).same_setup(old(fb)),
        (final(fb).text().pos(), final(fb).pixels()) == old(fb).after_print(help_text(), WHITE),
{
    fb.print(help_message(), WHITE);
}

fn cmd_clear(fb: &mut Framebuffer)
    ensures
        final(fb).same_setup(old(fb)),
        (final(fb).text().pos(), final(fb).pixels()) == old(fb).after_clear(),
{
    fb.clear();
}

/// Runs the shell command a line names: `help` lists the commands, `clear`
/// blanks the screen, anything else but `donut` reports an unknown command.
/// Returns the command; the caller runs the `donut` animation.
pub fn handle_command(fb: &mut Framebuffer, line: &[u8]) -> (r: Command)
    requires
        old(fb).wf(),
        command_of(line@) == Command::Help ==> old(fb).print_fits_spec(help_text()),
        command_of(line@) == Command::Unknown ==> old(fb).print_fits_spec(unknown_text()),
    ensures
        r == command_of(line@),
        final(fb).same_setup(old(fb)),
        (final(fb).text().pos(), final(fb).pixels()) == match r {
            Command::Help => old(fb).after_print(help_text(), WHITE),
            Command::Clear => old(fb).after_clear(),
            Command::Donut => (old(fb).text().pos(), old(fb).pixels()),
            Command::Unknown => old(fb).after_print(unknown_text(), WHITE),
        },
{
    let cmd = parse_command(line);
    match cmd {
        Command::Help => cmd_help(fb),
        Command::Clear => cmd_clear(fb),
        Command::Donut => {},
        Command::Unknown => fb.print(unknown_message(), WHITE),
    }
    cmd
}

/// The distance between pixel lines of a screen, in pixels.
pub open spec fn stride_of(f: Framebuffer) -> int {
    (f.pitch() / 4) as int
}

/// The cursor underline at the position of `p` painted in `fg` on screen
/// `f`'s setup; nothing without a pixel buffer.
pub open spec fn cursor_painted(f: Framebuffer, p: (TextPos, Seq<u32>), fg: u32) -> (TextPos, Seq<u32>) {
    if f.attached() {
        (p.0, paint(p.1, cursor_bits(), stride_of(f), p.0.x as int, p.0.y + 14, fg, 0))
    } else {
        p
    }
}

/// The cursor cell at `p` lies inside the address space.
pub open spec fn cursor_ok(f: Framebuffer, p: (TextPos, Seq<u32>)) -> bool {
    f.attached() ==> cell_fits(stride_of(f), p.0.x as int, p.0.y as int)
}

/// The cell a backspace at `p` blanks lies inside the address space.
pub open spec fn backspace_ok(f: Framebuffer, p: (TextPos, Seq<u32>)) -> bool {
    f.attached() ==> (backspace_target(p.0.x, p.0.y, p.0.prev_end) matches Some((nx, ny)) ==> cell_fits(
        stride_of(f),
        nx as int,
        ny as int,
    ))
}

/// A backspace at `p`: the cursor moves back one cell, which is blanked.
pub open spec fn backspaced(f: Framebuffer, p: (TextPos, Seq<u32>)) -> (TextPos, Seq<u32>) {
    if f.attached() {
        match backspace_target(p.0.x, p.0.y, p.0.prev_end) {
            None => p,
            Some((nx, ny)) => (
                TextPos { x: nx, y: ny, prev_end: p.0.prev_end },
                paint(p.1, glyph(f.text().font(), 0x20), stride_of(f), nx as int, ny as int, 0x00FFFFFF, 0),
            ),
        }
    } else {
        p
    }
}

/// Printing `t` at `p` stays inside the address space.
pub open spec fn print_ok(f: Framebuffer, p: (TextPos, Seq<u32>), t: Seq<u8>) -> bool {
    f.attached() ==> text_run_ok(stride_of(f), p.0, t)
}

/// `t` printed in white at `p`.
pub open spec fn printed(f: Framebuffer, p: (TextPos, Seq<u32>), t: Seq<u8>) -> (TextPos, Seq<u32>) {
    if f.attached() {
        text_run(f.text().font(), stride_of(f), WHITE, 0, p.0, p.1, t)
    } else {
        p
    }
}

/// The screen at `p` blanked, with the cursor at the top left.
pub open spec fn cleared(f: Framebuffer, p: (TextPos, Seq<u32>)) -> (TextPos, Seq<u32>) {
    if f.attached() {
        (TextPos { x: 0, y: 0, prev_end: p.0.prev_end }, Seq::new(p.1.len(), |i: int| 0u32))
    } else {
        p
    }
}

/// The shell's prompt.
pub open spec fn prompt_text() -> Seq<u8> {
    "\n> ".spec_bytes()
}

/// What showing a key came to.
#[derive(Copy, Clone, Debug, PartialEq, Eq, Structural)]
pub enum KeyShown {
    /// The key is on screen and the cursor is drawn again.
    Shown,
    /// The line was `donut`: the caller runs the animation now.
    Donut,
    /// The next step would have drawn outside the address space; the screen
    /// is as it was before that step.
    Overflow,
}

/// What a key does between erasing and redrawing the cursor.
pub open spec fn key_middle(f: Framebuffer, p: (TextPos, Seq<u32>), a: KeyAction) -> ((TextPos, Seq<u32>), KeyShown) {
    match a {
        KeyAction::Ignore => (p, KeyShown::Shown),
        KeyAction::BackspaceAtStart => (p, KeyShown::Shown),
        KeyAction::Backspace => if backspace_ok(f, p) {
            (backspaced(f, p), KeyShown::Shown)
        } else {
            (p, KeyShown::Overflow)
        },
        KeyAction::Echo(b) => if print_ok(f, p, seq![b]) {
            (printed(f, p, seq![b]), KeyShown::Shown)
        } else {
            (p, KeyShown::Overflow)
        },
        KeyAction::Submit(line) => {
            let c = command_of(line@);
            if (c == Command::Help && !print_ok(f, p, help_text())) || (c == Command::Unknown && !print_ok(
                f,
                p,
                unknown_text(),
            )) {
                (p, KeyShown::Overflow)
            } else {
                let q = match c {
                    Command::Help => printed(f, p, help_text()),
                    Command::Clear => cleared(f, p),
                    Command::Donut => p,
                    Command::Unknown => printed(f, p, unknown_text()),
                };
                if c == Command::Donut {
                    (q, KeyShown::Donut)
                } else if print_ok(f, q, prompt_text()) {
                    (printed(f, q, prompt_text()), KeyShown::Shown)
                } else {
                    (q, KeyShown::Overflow)
                }
            }
        },
    }
}

/// The cursor position and pixels after showing key action `a` on screen
/// `f`, and what it came to: nothing for `Ignore`; otherwise the cursor is
/// erased, the action shown (a backspace, an echoed byte, or a command run
/// and a fresh prompt), and the cursor drawn again. Each step is checked to
/// stay inside the address space first.
pub open spec fn key_screen(f: Framebuffer, a: KeyAction) -> ((TextPos, Seq<u32>), KeyShown) {
    let p0 = (f.text().pos(), f.pixels());
    if a is Ignore {
        (p0, KeyShown::Shown)
    } else if !cursor_ok(f, p0) {
        (p0, KeyShown::Overflow)
    } else {
        let (p2, o) = key_middle(f, cursor_painted(f, p0, 0), a);
        if o != KeyShown::Shown {
            (p2, o)
        } else if cursor_ok(f, p2) {
            (cursor_painted(f, p2, 0x00FFFFFF), KeyShown::Shown)
        } else {
            (p2, KeyShown::Overflow)
        }
    }
}

/// Shows on screen what a key did (see `key_screen`).
pub fn show_key(fb: &mut Framebuffer, action: &KeyAction) -> (r: KeyShown)
    requires
        old(fb).wf(),
    ensures
        final(fb).wf(),
        final(fb).attached() == old(fb).attached(),
        final(fb).pitch() == old(fb).pitch(),
        final(fb).height() == old(fb).height(),
        final(fb).text().font() == old(fb).text().font(),
        final(fb).text().cols() == old(fb).text().cols(),
        ((final(fb).text().pos(), final(fb).pixels()), r) == key_screen(*old(fb), *action),
        (old(fb).attached() && !(*action is Ignore) && cursor_ok(*old(fb), (old(fb).text().pos(), old(fb).pixels())))
            ==> final(fb).text().cursor_shown() == (r == KeyShown::Shown),
{
    let ghost f = *fb;
    if let KeyAction::Ignore = action {
        return KeyShown::Shown;
    }
    if !fb.cursor_fits() {
        return KeyShown::Overflow;
    }
    fb.cursor_erase();
    let out = match action {
        KeyAction::Ignore => KeyShown::Shown,
        KeyAction::BackspaceAtStart => KeyShown::Shown,
        KeyAction::Backspace => {
            if fb.backspace_fits() {
                fb.backspace();
                KeyShown::Shown
            } else {
                KeyShown::Overflow
            }
        },
        KeyAction::Echo(b) => {
            let text = [*b];
            proof {
                assert(text@ =~= seq![*b]);
            }
            if fb.print_bytes_fits(&text) {
                fb.print_bytes(&text, WHITE);
                KeyShown::Shown
            } else {
                KeyShown::Overflow
            }
        },
        KeyAction::Submit(line) => {
            let c = parse_command(line.as_slice());
            let fits = match c {
                Command::Help => fb.print_fits(help_message()),
                Command::Unknown => fb.print_fits(unknown_message()),
                _ => true,
            };
            if !fits {
                KeyShown::Overflow
            } else {
                let c = handle_command(fb, line.as_slice());
                if c == Command::Donut {
                    KeyShown::Donut
                } else if fb.print_fits("\n> ") {
                    fb.print("\n> ", WHITE);
                    KeyShown::Shown
                } else {
                    KeyShown::Overflow
                }
            }
        },
    };
    if out != KeyShown::Shown {
        return out;
    }
    if !fb.cursor_fits() {
        return KeyShown::Overflow;
    }
    fb.cursor_draw();
    KeyShown::Shown
}

/// A submitted `help` line, or a line naming no command, on a screen with a
/// pixel buffer: the cursor underline is erased, the command's text (the
/// command list, or the unknown-command message) and then the prompt
/// `"\n> "` are drawn in white from the cursor, and the underline is drawn
/// where the prompt ends — provided each of these stays inside the address
/// space.
pub proof fn lemma_show_command_text(f: Framebuffer, line: Vec<u8>, t: Seq<u8>)
    requires
        f.attached(),
        (command_of(line@) == Command::Help && t == help_text()) || (command_of(line@) == Command::Unknown
            && t == unknown_text()),
        ({
            let st = (f.pitch() / 4) as int;
            let p0 = f.text().pos();
            let end = pos_run(p0, t + "\n> ".spec_bytes());
            &&& cell_fits(st, p0.x as int, p0.y as int)
            &&& text_run_ok(st, p0, t + "\n> ".spec_bytes())
            &&& cell_fits(st, end.x as int, end.y as int)
        }),
    ensures
        ({
            let st = (f.pitch() / 4) as int;
            let p0 = f.text().pos();
            let pix1 = paint(f.pixels(), cursor_bits(), st, p0.x as int, p0.y + 14, 0, 0);
            let (q, pix2) = text_run(f.text().font(), st, 0xFFFFFFFF, 0, p0, pix1, t + "\n> ".spec_bytes());
            key_screen(f, KeyAction::Submit(line)) == (
                (q, paint(pix2, cursor_bits(), st, q.x as int, q.y + 14, 0x00FFFFFF, 0)),
                KeyShown::Shown,
            )
        }),
{
    let st = (f.pitch() / 4) as int;
    let p0 = f.text().pos();
    let font = f.text().font();
    let pr = "\n> ".spec_bytes();
    let pix1 = paint(f.pixels(), cursor_bits(), st, p0.x as int, p0.y + 14, 0, 0);
    let p1 = (p0, pix1);
    assert(cursor_painted(f, (p0, f.pixels()), 0) == p1);
    lemma_text_run_ok_concat(st, p0, t, pr);
    lemma_text_run_concat(font, st, WHITE, 0, p0, pix1, t, pr);
    let q = text_run(font, st, WHITE, 0, p0, pix1, t);
    lemma_text_run_pos(font, st, WHITE, 0, p0, pix1, t);
    lemma_text_run_pos(font, st, WHITE, 0, p0, pix1, t + pr);
    assert(printed(f, p1, t) == q);
    assert(print_ok(f, q, prompt_text()));
    assert(key_middle(f, p1, KeyAction::Submit(line)) == (printed(f, q, prompt_text()), KeyShown::Shown));
}

/// A typed byte other than a newline on a screen with a pixel buffer: the
/// cursor underline is erased, the byte's glyph is drawn in white at the
/// cursor, the cursor moves one cell right and the underline is drawn there
/// — provided each of these stays inside the address space.
pub proof fn lemma_show_echo(f: Framebuffer, b: u8)
    requires
        f.attached(),
        b != 0x0A,
        ({
            let st = (f.pitch() / 4) as int;
            let p0 = f.text().pos();
            &&& cell_fits(st, p0.x as int, p0.y as int)
            &&& p0.x + 8 <= usize::MAX
            &&& cell_fits(st, p0.x + 8, p0.y as int)
        }),
    ensures
        ({
            let st = (f.pitch() / 4) as int;
            let p0 = f.text().pos();
            let pix1 = paint(f.pixels(), cursor_bits(), st, p0.x as int, p0.y + 14, 0, 0);
            let pix2 = paint(pix1, glyph(f.text().font(), b), st, p0.x as int, p0.y as int, 0xFFFFFFFF, 0);
            let q = TextPos { x: (p0.x + 8) as usize, y: p0.y, prev_end: p0.prev_end };
            key_screen(f, KeyAction::Echo(b)) == (
                (q, paint(pix2, cursor_bits(), st, q.x as int, q.y + 14, 0x00FFFFFF, 0)),
                KeyShown::Shown,
            )
        }),
{
    let s = seq![b];
    assert(s.drop_last() =~= Seq::<u8>::empty());
    assert(s.last() == b);
    let p0 = f.text().pos();
    let st = (f.pitch() / 4) as int;
    assert(text_run_ok(st, p0, s.drop_last()));
    assert(pos_run(p0, s.drop_last()) == p0);
    assert(text_run_ok(st, p0, s));
    let font = f.text().font();
    let pix1 = paint(f.pixels(), cursor_bits(), st, p0.x as int, p0.y + 14, 0, 0);
    assert(cursor_painted(f, (p0, f.pixels()), 0) == (p0, pix1));
    assert(text_run(font, st, WHITE, 0, p0, pix1, s.drop_last()) == (p0, pix1));
    assert(text_run(font, st, WHITE, 0, p0, pix1, s) == text_step(font, st, WHITE, 0, p0, pix1, b));
    assert(key_middle(f, (p0, pix1), KeyAction::Echo(b)) == (printed(f, (p0, pix1), s), KeyShown::Shown));
}

/// Backspace on a screen with a pixel buffer: the cursor underline is
/// erased, the cursor moves one cell left (from the start of a line: to
/// where the previous line ended), that cell is blanked with the space
/// glyph, and the underline is drawn there; at the top left nothing moves
/// and the underline is drawn again where it was — provided each of these
/// stays inside the address space.
pub proof fn lemma_show_backspace(f: Framebuffer)
    requires
        f.attached(),
        ({
            let st = (f.pitch() / 4) as int;
            let p0 = f.text().pos();
            let (nx, ny) = if p0.x >= 8 {
                (p0.x - 8, p0.y as int)
            } else if p0.y >= 16 {
                (p0.prev_end as int, p0.y - 16)
            } else {
                (p0.x as int, p0.y as int)
            };
            &&& cell_fits(st, p0.x as int, p0.y as int)
            &&& cell_fits(st, nx, ny)
        }),
    ensures
        ({
            let st = (f.pitch() / 4) as int;
            let p0 = f.text().pos();
            let pix1 = paint(f.pixels(), cursor_bits(), st, p0.x as int, p0.y + 14, 0, 0);
            let (q, pix2) = if p0.x >= 8 {
                (
                    TextPos { x: (p0.x - 8) as usize, y: p0.y, prev_end: p0.prev_end },
                    paint(pix1, glyph(f.text().font(), 0x20), st, p0.x - 8, p0.y as int, 0x00FFFFFF, 0),
                )
            } else if p0.y >= 16 {
                (
                    TextPos { x: p0.prev_end, y: (p0.y - 16) as usize, prev_end: p0.prev_end },
                    paint(pix1, glyph(f.text().font(), 0x20), st, p0.prev_end as int, p0.y - 16, 0x00FFFFFF, 0),
                )
            } else {
                (p0, pix1)
            };
            key_screen(f, KeyAction::Backspace) == (
                (q, paint(pix2, cursor_bits(), st, q.x as int, q.y + 14, 0x00FFFFFF, 0)),
                KeyShown::Shown,
            )
        }),
{
}

/// A submitted `clear` line on a screen with a pixel buffer: every pixel is
/// blanked, the cursor goes to the top left, and the prompt `"\n> "` and
/// then the cursor underline are drawn on the blank screen — provided
/// erasing the old underline and drawing the prompt and the new underline
/// stay inside the address space.
pub proof fn lemma_show_clear(f: Framebuffer, line: Vec<u8>)
    requires
        f.attached(),
        command_of(line@) == Command::Clear,
        ({
            let st = (f.pitch() / 4) as int;
            let p0 = f.text().pos();
            let z = TextPos { x: 0, y: 0, prev_end: p0.prev_end };
            let end = pos_run(z, "\n> ".spec_bytes());
            &&& cell_fits(st, p0.x as int, p0.y as int)
            &&& text_run_ok(st, z, "\n> ".spec_bytes())
            &&& cell_fits(st, end.x as int, end.y as int)
        }),
    ensures
        ({
            let st = (f.pitch() / 4) as int;
            let z = TextPos { x: 0, y: 0, prev_end: f.text().pos().prev_end };
            let blank = Seq::new(f.pixels().len(), |i: int| 0u32);
            let (q, pix2) = text_run(f.text().font(), st, 0xFFFFFFFF, 0, z, blank, "\n> ".spec_bytes());
            key_screen(f, KeyAction::Submit(line)) == (
                (q, paint(pix2, cursor_bits(), st, q.x as int, q.y + 14, 0x00FFFFFF, 0)),
                KeyShown::Shown,
            )
        }),
{
    let st = (f.pitch() / 4) as int;
    let p0 = f.text().pos();
    let font = f.text().font();
    let z = TextPos { x: 0, y: 0, prev_end: p0.prev_end };
    let pix1 = paint(f.pixels(), cursor_bits(), st, p0.x as int, p0.y + 14, 0, 0);
    let p1 = (p0, pix1);
    assert(cursor_painted(f, (p0, f.pixels()), 0) == p1);
    let blank = Seq::new(f.pixels().len(), |i: int| 0u32);
    assert(cleared(f, p1) == (z, blank));
    lemma_text_run_pos(font, st, WHITE, 0, z, blank, prompt_text());
}

/// A submitted `donut` line: the cursor underline is erased and nothing else
/// is drawn; the caller runs the animation.
pub proof fn lemma_show_donut(f: Framebuffer, line: Vec<u8>)
    requires
        command_of(line@) == Command::Donut,
        f.attached() ==> cell_fits((f.pitch() / 4) as int, f.text().pos().x as int, f.text().pos().y as int),
    ensures
        key_screen(f, KeyAction::Submit(line)) == (
            (
                f.text().pos(),
                if f.attached() {
                    paint(
                        f.pixels(),
                        cursor_bits(),
                        (f.pitch() / 4) as int,
                        f.text().pos().x as int,
                        f.text().pos().y + 14,
                        0,
                        0,
                    )
                } else {
                    f.pixels()
                },
            ),
            KeyShown::Donut,
        ),
{
}

/// Width of the donut animation in characters.
pub const DONUT_COLS: usize = 80;
/// Height of the donut animation in lines.
pub const DONUT_ROWS: usize = 22;

/// The character cell of the donut picture that screen point (`x`, `y`)
/// falls on, when it is strictly inside the picture's borders.
pub fn donut_cell(x: isize, y: isize) -> (r: Option<usize>)
    ensures
        r == (if 0 < x < 80 && 0 < y < 22 {
            Some((x + 80 * y) as usize)
        } else {
            None
        }),
{
    if x > 0 && x < 80 && y > 0 && y < 22 {
        Some(x as usize + 80 * y as usize)
    } else {
        None
    }
}

/// The shading characters of the donut, dimmest first.
pub open spec fn donut_shades() -> Seq<u8> {
    seq![0x2Eu8, 0x2C, 0x2D, 0x7E, 0x3A, 0x3B, 0x3D, 0x21, 0x2A, 0x23, 0x24, 0x40]
}

/// The shading character for brightness level `level`, the brightest one
/// for any level past the last.
pub fn donut_shade(level: usize) -> (r: u8)
    ensures
        r == donut_shades()[if level < 11 { level as int } else { 11 }],
{
    let shades = [0x2Eu8, 0x2C, 0x2D, 0x7E, 0x3A, 0x3B, 0x3D, 0x21, 0x2A, 0x23, 0x24, 0x40];
    proof {
        assert(shades@ =~= donut_shades());
    }
    let i = if level < shades.len() - 1 {
        level
    } else {
        shades.len() - 1
    };
    shades[i]
}

/// The text of one donut frame: the 22 lines of 80 characters of `out`,
/// each followed by a newline.
pub open spec fn donut_frame_spec(out: Seq<u8>) -> Seq<u8> {
    Seq::new(22 * 81, |k: int| if k % 81 == 80 { 0x0Au8 } else { out[(k / 81) * 80 + k % 81] })
}

/// Lays out one donut frame as text.
pub fn donut_frame(out: &[u8]) -> (r: Vec<u8>)
    requires
        out@.len() >= 1760,
    ensures
        r@ == donut_frame_spec(out@),
{
    let mut frame: Vec<u8> = Vec::new();
    let mut row: usize = 0;
    while row < DONUT_ROWS
        invariant
            row <= 22,
            out@.len() >= 1760,
            frame@.len() == row * 81,
            forall|k: int| 0 <= k < frame@.len() ==> #[trigger] frame@[k] == donut_frame_spec(out@)[k],
        decreases 22 - row,
    {
        let mut col: usize = 0;
        while col < DONUT_COLS
            invariant
                row < 22,
                col <= 80,
                out@.len() >= 1760,
                frame@.len() == row * 81 + col,
                forall|k: int| 0 <= k < frame@.len() ==> #[trigger] frame@[k] == donut_frame_spec(out@)[k],
            decreases 80 - col,
        {
            proof {
                let k = row * 81 + col;
                assert(k / 81 == row && k % 81 == col) by (nonlinear_arith)
                    requires k == row * 81 + col, col < 80, row >= 0;
            }
            frame.push(out[row * 80 + col]);
            col = col + 1;
        }
        proof {
            let k = row * 81 + 80;
            assert(k % 81 == 80) by (nonlinear_arith)
                requires k == row * 81 + 80, row >= 0;
        }
        frame.push(0x0A);
        row = row + 1;
    }
    proof {
        assert(frame@ =~= donut_frame_spec(out@));
    }
    frame
}

} // verus!
