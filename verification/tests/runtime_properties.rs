use chip8_runtime::display::Screen;
use chip8_runtime::error::VmError;
use chip8_runtime::proc::Proc;
use chip8_runtime::shared_memory::SharedMemory;

fn proc_with_pages(pages: u16) -> (SharedMemory, Proc) {
    let mut mem = SharedMemory::new().unwrap();
    let proc = Proc::new_with_display_and_pages(&mut mem, Screen::new(), pages).unwrap();
    (mem, proc)
}

#[test]
fn translate_stays_in_arena_and_rejects_out_of_range() {
    let (_mem, proc) = proc_with_pages(2);
    for v in [0u32, 1, 0xFFF, 0x1000, 0x1FFF] {
        let p = proc.translate(v).unwrap();
        assert!(p < 0x100000);
    }
    assert_eq!(proc.translate(0x2000), Err(VmError::OutOfRange));
    assert_eq!(proc.translate(0xFFFF_FFFF), Err(VmError::OutOfRange));
}

#[test]
fn write_then_read_round_trips() {
    let (mut mem, proc) = proc_with_pages(1);
    let bs = vec![1u8, 2, 3, 4, 5];
    proc.write_bytes(&mut mem, 0x400, &bs).unwrap();
    let back = proc.read_bytes(&mem, 0x400, bs.len()).unwrap();
    assert_eq!(back, bs);
}

#[test]
fn write_then_read_round_trips_across_page_boundary() {
    let (mut mem, proc) = proc_with_pages(2);
    // starts below the first page boundary and ends beyond it.
    let bs: Vec<u8> = (0u8..32).collect();
    let base = 0x1000 - 16;
    proc.write_bytes(&mut mem, base, &bs).unwrap();
    let back = proc.read_bytes(&mem, base, bs.len()).unwrap();
    assert_eq!(back, bs);
}

#[test]
fn write_bytes_rejects_ranges_beyond_the_address_space() {
    let (mut mem, proc) = proc_with_pages(1);
    let bs = vec![0u8; 16];
    assert_eq!(proc.write_bytes(&mut mem, 0x0FF8, &bs), Err(VmError::OutOfRange));
    assert_eq!(proc.read_bytes(&mem, 0x0FF8, 16), Err(VmError::OutOfRange));
}

#[test]
fn loaded_program_has_font_and_image_in_place() {
    let (mut mem, proc) = proc_with_pages(1);
    let rom = vec![0x12u8, 0x00];
    proc.load_program_bytes(&mut mem, &rom).unwrap();
    // the first font glyph starts with 0xF0.
    assert_eq!(proc.read_u8(&mem, 0).unwrap(), 0xF0);
    assert_eq!(proc.read_u8(&mem, 0x200).unwrap(), 0x12);
    assert_eq!(proc.read_u8(&mem, 0x201).unwrap(), 0x00);
}

#[test]
fn load_rejects_images_that_do_not_fit() {
    let (mut mem, proc) = proc_with_pages(1);
    let rom = vec![0u8; 0x1000 - 0x200 + 1];
    assert_eq!(proc.load_program_bytes(&mut mem, &rom), Err(VmError::TooLarge));
}

#[test]
fn read_u16_is_big_endian() {
    let (mut mem, proc) = proc_with_pages(1);
    proc.write_u8(&mut mem, 0x300, 0xAB).unwrap();
    proc.write_u8(&mut mem, 0x301, 0xCD).unwrap();
    assert_eq!(proc.read_u16(&mem, 0x300).unwrap(), 0xABCD);
}

#[test]
fn sprite_drawing_wraps_at_the_display_edges() {
    let mut screen = Screen::new();
    let sprite = vec![0x80u8];  // a single leftmost pixel
    let col = screen.draw_sprite(&sprite, 63, 31);
    assert!(!col);
    // (63, 31) is the bottom-right corner.
    assert!(screen.buf[31 * 64 + 63]);
    let col2 = screen.draw_sprite(&sprite, 63, 31);
    assert!(col2);
    assert!(!screen.buf[31 * 64 + 63]);
}

#[test]
fn stack_pointer_starts_at_the_top_of_the_address_space() {
    let (_mem, small) = proc_with_pages(1);
    assert_eq!(small.regs.SP, 0x1000);
    assert_eq!(small.regs.PC, 0x200);
    let (_mem16, wide) = proc_with_pages(16);
    // capped at the register width.
    assert_eq!(wide.regs.SP, 0xFFFF);
}

#[test]
fn timers_decay_and_saturate_at_zero() {
    let (mut mem, mut proc) = proc_with_pages(1);
    proc.regs.DT = 3;
    proc.regs.ST = 1;
    // a harmless no-op instruction; two ticks of decay.
    let pc = proc.regs.PC;
    proc.write_bytes(&mut mem, pc as u32, &vec![0x00, 0x42]).unwrap();
    proc.step(&mut mem, 2);
    assert_eq!(proc.regs.DT, 1);
    assert_eq!(proc.regs.ST, 0);
}
