# vishyos

The logic of a small x86-64 hobby kernel, verified with Verus.

`src/` is the verified library:

- `drivers/colors.rs` – the named console colours.
- `font/psf.rs` – the text console: glyph drawing into a pixel buffer,
  cursor movement, newline, backspace and the underline cursor.
- `drivers/framebuffer.rs` – the screen: an optional pixel buffer with the
  console on it.
- `keyboard.rs` – scancode handling: shift state, command-line editing, and
  what the screen has to do for each key.
- `cmd.rs` – the shell commands, what a key shows on screen, and the
  integer parts of the donut animation.
- `gdt/gdt.rs` – the segment descriptor table, its descriptor and the
  kernel selectors; start-up loads the table and reloads the segments.
- `interrupts/idt.rs`, `interrupts/pic.rs` – the interrupt descriptor table,
  interrupt dispatch (exceptions, the timer, the keyboard, the other
  hardware lines) and the interrupt-controller remapping sequence.
- `memory/phys.rs` – what the library knows of physical memory: the words it
  has been handed or has written, and the writes that the machine still has
  to carry out.
- `memory/mmu.rs` – the usable regions of the boot memory map and the
  free-frame list, whose links live in the first word of each free frame.
- `memory/paging.rs` – page-table entries and the four-level walk: map,
  unmap, translate, and copying the top-level table.
- `memory/mem.rs` – copy, fill, move, length and compare on byte buffers.

The library never touches physical memory itself. An operation that needs a
word it does not know stops with `Step::Load`, changing nothing; the caller
reads that word through the higher-half direct map, hands it over with
`load_word` (or a whole frame with `load_frame`) and runs the operation
again. Every change waits in `drain_writes` until the caller has carried it
out, after which `forget` drops what the library knew.

`app/` is the kernel around it: boot-loader requests, port and register
access, the memory accesses above, interrupt entry, the floating-point donut,
and the start-up sequence.
It expects the console font as the first boot module and the interrupt entry
stubs to be linked in.
