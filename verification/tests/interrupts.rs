use bronze_kernel::interrupts::{pit_programming, InterruptIndex, PIC_1_OFFSET, PIC_2_OFFSET};

#[test]
fn vectors() {
    assert_eq!(InterruptIndex::Breakpoint.as_u8(), 3);
    assert_eq!(InterruptIndex::Timer.as_u8(), 32);
    assert_eq!(InterruptIndex::Keyboard.as_u8(), 33);
    assert_eq!(PIC_1_OFFSET, 32);
    assert_eq!(PIC_2_OFFSET, 40);
}

#[test]
fn pit_bytes() {
    let (cmd, low, high) = pit_programming();
    assert_eq!(cmd, 0b0011_0110);
    assert_eq!(low, 155);
    assert_eq!(high, 46);
    assert_eq!(low as u32 + 256 * high as u32, 1193182 / 100);
}
