//! A small x86_64 hobby kernel's logic: the tick clock, the PS/2 keyboard
//! state, the physical page free list and the framebuffer text console.
use vstd::prelude::*;

pub mod time;
pub mod keyboard;
pub mod graphics;
pub mod memory;
pub mod interrupts;

verus! {
}
