# bronze_kernel

The logic of a small x86_64 hobby kernel, verified with Verus.

- `src/time.rs`: the tick clock (`TimeManager`), tick/millisecond conversions
  and busy-wait deadlines.
- `src/keyboard.rs`: key state from PS/2 scan code set 1.
- `src/memory.rs`: the boot memory map, counting and listing whole usable
  pages, and handing them out from the free list.
- `src/interrupts.rs`: interrupt vectors and the interval timer's programming.
- `src/graphics.rs`: a framebuffer text console with scrolling and number
  formatting, specified byte for byte over the framebuffer.

`app/` is the kernel binary around the library: boot entry, interrupt
descriptor table and entry stubs, PIC and port I/O, the statics that hold the
managers, printing, and the console font.
