//! Interrupt vectors and the programming of the interval timer.
use vstd::prelude::*;
use crate::time::TICK_HZ;

verus! {

/// Vector of the first interrupt of the primary PIC.
pub const PIC_1_OFFSET: u8 = 32;
/// Vector of the first interrupt of the secondary PIC.
pub const PIC_2_OFFSET: u8 = 40;

/// Input clock of the programmable interval timer, in Hz.
pub const PIT_BASE_HZ: usize = 1193182;

/// PIT command: channel 0, low then high byte, square wave, binary counter.
pub const PIT_COMMAND: u8 = 0b00110110;

/// The interrupts that the kernel handles.
#[derive(Clone, Copy)]
pub enum InterruptIndex {
    Breakpoint,
    Timer,
    Keyboard,
}

impl InterruptIndex {
    /// The interrupt's vector number.
    pub open spec fn vector(self) -> u8 {
        match self {
            InterruptIndex::Breakpoint => 3,
            InterruptIndex::Timer => 32,
            InterruptIndex::Keyboard => 33,
        }
    }

    /// The interrupt's vector number.
    pub fn as_u8(self) -> (v: u8)
        ensures
            v == self.vector(),
    {
        match self {
            InterruptIndex::Breakpoint => 3,
            InterruptIndex::Timer => PIC_1_OFFSET,
            InterruptIndex::Keyboard => PIC_1_OFFSET + 1,
        }
    }
}

/// The timer's reload value for `TICK_HZ` interrupts a second.
pub open spec fn pit_divisor() -> int {
    (PIT_BASE_HZ / TICK_HZ) as u16 as int
}

/// The bytes that program the timer: the command, then the low and the high
/// byte of the reload value.
pub fn pit_programming() -> (bytes: (u8, u8, u8))
    ensures
        bytes.0 == PIT_COMMAND,
        bytes.1 == pit_divisor() % 256,
        bytes.2 == pit_divisor() / 256,
        bytes.1 + 256 * bytes.2 == pit_divisor(),
{
    let div = (PIT_BASE_HZ / TICK_HZ) as u16;
    assert(div == 11931);
    let low = (div & 0xff) as u8;
    let high = (div >> 8) as u8;
    assert(low == 155u8 && high == 46u8) by (bit_vector)
        requires div == 11931u16, low == (div & 0xff) as u8, high == (div >> 8) as u8;
    (PIT_COMMAND, low, high)
}

/// The timer and the keyboard are the first two lines of the primary PIC,
/// the breakpoint is exception 3, and no two share a vector; the timer's
/// reload value gives 100 interrupts a second from its 1193182 Hz clock.
pub proof fn lemma_vectors()
    ensures
        InterruptIndex::Breakpoint.vector() == 3,
        InterruptIndex::Timer.vector() == PIC_1_OFFSET,
        InterruptIndex::Keyboard.vector() == PIC_1_OFFSET + 1,
        PIC_2_OFFSET == PIC_1_OFFSET + 8,
        pit_divisor() == 1193182int / 100,
{
}

} // verus!
