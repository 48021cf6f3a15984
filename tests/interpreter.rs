use komchip::chip8::{Fault, Interpreter, ShiftQuirk, DISPLAY_HEIGHT, PROGRAM_START};
use komchip::memory::{FONTS_START, FONT_HEIGHT};

fn run(interp: &mut Interpreter, instrs: &[u16]) {
    for &instr in instrs {
        assert_eq!(interp.fault(instr), None);
        interp.process_instruction(instr);
    }
}

fn set_pixels(interp: &Interpreter) -> u32 {
    interp.display_buffer.iter().map(|row| row.count_ones()).sum()
}

#[test]
fn fresh_interpreter_state() {
    let interp = Interpreter::new();
    assert_eq!(interp.pc(), PROGRAM_START);
    assert_eq!(interp.stack_depth(), 0);
    assert_eq!(interp.index_register(), 0);
    assert_eq!(interp.delay_timer(), 0);
    assert_eq!(interp.sound_timer(), 0);
    assert!(!interp.display_flag);
    assert_eq!(interp.display_buffer, [0u64; DISPLAY_HEIGHT]);
    for i in 0..16 {
        assert_eq!(interp.register(i), 0);
    }
    assert_eq!(interp.ram.read_byte(FONTS_START), 0xF0);
}

#[test]
fn load_then_add_wraps() {
    let mut interp = Interpreter::with_seed(1);
    run(&mut interp, &[0x63F0, 0x7320]);
    assert_eq!(interp.register(3), 0x10);
    assert_eq!(interp.register(0xF), 0);
    run(&mut interp, &[0x6405, 0x7406]);
    assert_eq!(interp.register(4), 0x0B);
    assert_eq!(interp.pc(), PROGRAM_START + 8);
}

#[test]
fn add_with_carry() {
    let mut interp = Interpreter::with_seed(1);
    run(&mut interp, &[0x61FF, 0x6201, 0x8124]);
    assert_eq!(interp.register(1), 0x00);
    assert_eq!(interp.register(0xF), 1);
    run(&mut interp, &[0x6101, 0x6201, 0x8124]);
    assert_eq!(interp.register(1), 0x02);
    assert_eq!(interp.register(0xF), 0);
}

#[test]
fn subtract_with_borrow() {
    let mut interp = Interpreter::with_seed(1);
    run(&mut interp, &[0x6101, 0x6202, 0x8125]);
    assert_eq!(interp.register(1), 0xFF);
    assert_eq!(interp.register(0xF), 0);
    run(&mut interp, &[0x6105, 0x6202, 0x8125]);
    assert_eq!(interp.register(1), 0x03);
    assert_eq!(interp.register(0xF), 1);
}

#[test]
fn reverse_subtract() {
    let mut interp = Interpreter::with_seed(1);
    run(&mut interp, &[0x6105, 0x6202, 0x8127]);
    assert_eq!(interp.register(1), 0xFD);
    assert_eq!(interp.register(0xF), 0);
    run(&mut interp, &[0x6102, 0x6205, 0x8127]);
    assert_eq!(interp.register(1), 0x03);
    assert_eq!(interp.register(0xF), 1);
}

#[test]
fn bitwise_operations() {
    let mut interp = Interpreter::with_seed(1);
    run(&mut interp, &[0x61CC, 0x62AA, 0x8121]);
    assert_eq!(interp.register(1), 0xEE);
    run(&mut interp, &[0x61CC, 0x8122]);
    assert_eq!(interp.register(1), 0x88);
    run(&mut interp, &[0x61CC, 0x8123]);
    assert_eq!(interp.register(1), 0x66);
    run(&mut interp, &[0x8120]);
    assert_eq!(interp.register(1), 0xAA);
}

#[test]
fn shifts_in_place() {
    let mut interp = Interpreter::with_seed(1);
    run(&mut interp, &[0x6181, 0x6202, 0x8126]);
    assert_eq!(interp.register(1), 0x40);
    assert_eq!(interp.register(0xF), 1);
    run(&mut interp, &[0x6181, 0x812E]);
    assert_eq!(interp.register(1), 0x02);
    assert_eq!(interp.register(0xF), 1);
    run(&mut interp, &[0x6140, 0x812E]);
    assert_eq!(interp.register(1), 0x80);
    assert_eq!(interp.register(0xF), 0);
}

#[test]
fn shifts_with_legacy_quirk() {
    let mut interp = Interpreter::with_seed(1);
    interp.shift_quirk = ShiftQuirk::Legacy;
    run(&mut interp, &[0x6100, 0x6203, 0x8126]);
    assert_eq!(interp.register(1), 0x01);
    assert_eq!(interp.register(0xF), 1);
    run(&mut interp, &[0x62C0, 0x812E]);
    assert_eq!(interp.register(1), 0x80);
    assert_eq!(interp.register(0xF), 1);
}

#[test]
fn flag_write_wins_over_result() {
    let mut interp = Interpreter::with_seed(1);
    run(&mut interp, &[0x6FFF, 0x6101, 0x8F14]);
    assert_eq!(interp.register(0xF), 1);
}

#[test]
fn call_then_return() {
    let mut interp = Interpreter::with_seed(1);
    run(&mut interp, &[0x1300]);
    assert_eq!(interp.pc(), 0x300);
    run(&mut interp, &[0x2456]);
    assert_eq!(interp.pc(), 0x456);
    assert_eq!(interp.stack_depth(), 1);
    run(&mut interp, &[0x00EE]);
    assert_eq!(interp.pc(), 0x302);
    assert_eq!(interp.stack_depth(), 0);
}

#[test]
fn return_on_empty_stack_is_fatal() {
    let interp = Interpreter::with_seed(1);
    assert_eq!(interp.fault(0x00EE), Some(Fault::Stack));
}

#[test]
fn stack_depth_is_bounded() {
    let mut interp = Interpreter::with_seed(1);
    for _ in 0..16 {
        run(&mut interp, &[0x2200]);
    }
    assert_eq!(interp.stack_depth(), 16);
    assert_eq!(interp.fault(0x2200), Some(Fault::Stack));
}

#[test]
fn undefined_opcodes_are_fatal() {
    let interp = Interpreter::with_seed(1);
    assert_eq!(interp.fault(0x0123), Some(Fault::Decode));
    assert_eq!(interp.fault(0x8128), Some(Fault::Decode));
    assert_eq!(interp.fault(0xE19E), Some(Fault::Decode));
    assert_eq!(interp.fault(0xE1A1), Some(Fault::Decode));
    assert_eq!(interp.fault(0xF10A), Some(Fault::Decode));
    assert_eq!(interp.fault(0xF199), Some(Fault::Decode));
    assert_eq!(interp.fault(0x00E0), None);
    assert_eq!(interp.fault(0xF165), None);
}

#[test]
fn out_of_bounds_memory_use_is_fatal() {
    let mut interp = Interpreter::with_seed(1);
    run(&mut interp, &[0xAFFE]);
    assert_eq!(interp.fault(0xD012), None);
    assert_eq!(interp.fault(0xD013), Some(Fault::Bounds));
    assert_eq!(interp.fault(0xF033), Some(Fault::Bounds));
    assert_eq!(interp.fault(0xF155), None);
    assert_eq!(interp.fault(0xF255), Some(Fault::Bounds));
    assert_eq!(interp.fault(0xF265), Some(Fault::Bounds));
}

#[test]
fn skips() {
    let mut interp = Interpreter::with_seed(1);
    run(&mut interp, &[0x6107, 0x6207]);
    let pc = interp.pc();
    run(&mut interp, &[0x3107]);
    assert_eq!(interp.pc(), pc + 4);
    run(&mut interp, &[0x3108]);
    assert_eq!(interp.pc(), pc + 6);
    run(&mut interp, &[0x4108]);
    assert_eq!(interp.pc(), pc + 10);
    run(&mut interp, &[0x5120]);
    assert_eq!(interp.pc(), pc + 14);
    run(&mut interp, &[0x9120]);
    assert_eq!(interp.pc(), pc + 16);
}

#[test]
fn index_and_offset_jump() {
    let mut interp = Interpreter::with_seed(1);
    run(&mut interp, &[0xA123]);
    assert_eq!(interp.index_register(), 0x123);
    run(&mut interp, &[0x6010, 0xB300]);
    assert_eq!(interp.pc(), 0x310);
}

#[test]
fn random_is_masked() {
    let mut interp = Interpreter::with_seed(7);
    for _ in 0..20 {
        run(&mut interp, &[0xC50F]);
        assert_eq!(interp.register(5) & 0xF0, 0);
    }
    run(&mut interp, &[0xC500]);
    assert_eq!(interp.register(5), 0);
}

#[test]
fn execute_uses_given_random_byte() {
    let mut interp = Interpreter::with_seed(7);
    interp.execute(0xC23C, 0xF5);
    assert_eq!(interp.register(2), 0x34);
}

#[test]
fn timers() {
    let mut interp = Interpreter::with_seed(1);
    run(&mut interp, &[0x6105, 0xF115, 0x6203, 0xF218]);
    assert_eq!(interp.delay_timer(), 5);
    assert_eq!(interp.sound_timer(), 3);
    for _ in 0..5 {
        interp.tick_timers();
    }
    assert_eq!(interp.delay_timer(), 0);
    assert_eq!(interp.sound_timer(), 0);
    interp.tick_timers();
    assert_eq!(interp.delay_timer(), 0);
    assert_eq!(interp.sound_timer(), 0);
}

#[test]
fn read_delay_timer() {
    let mut interp = Interpreter::with_seed(1);
    run(&mut interp, &[0x6109, 0xF115]);
    interp.tick_timers();
    run(&mut interp, &[0xF307]);
    assert_eq!(interp.register(3), 8);
}

#[test]
fn index_add_overflow() {
    let mut interp = Interpreter::with_seed(1);
    run(&mut interp, &[0xAFF0, 0x6120, 0xF11E]);
    assert_eq!(interp.index_register(), 0x010);
    assert_eq!(interp.register(0xF), 1);
    run(&mut interp, &[0x6105, 0xF11E]);
    assert_eq!(interp.index_register(), 0x015);
    assert_eq!(interp.register(0xF), 0);
}

#[test]
fn font_lookup() {
    let mut interp = Interpreter::with_seed(1);
    run(&mut interp, &[0x610A, 0xF129]);
    assert_eq!(interp.index_register(), FONTS_START + 0xA * FONT_HEIGHT);
    assert_eq!(interp.ram.read_byte(interp.index_register()), 0xF0);
}

#[test]
fn decimal_digits() {
    let mut interp = Interpreter::with_seed(1);
    run(&mut interp, &[0xA300, 0x61FE, 0xF133]);
    assert_eq!(interp.ram.read_byte(0x300), 2);
    assert_eq!(interp.ram.read_byte(0x301), 5);
    assert_eq!(interp.ram.read_byte(0x302), 4);
    run(&mut interp, &[0x6107, 0xF133]);
    assert_eq!(interp.ram.read_byte(0x300), 0);
    assert_eq!(interp.ram.read_byte(0x301), 0);
    assert_eq!(interp.ram.read_byte(0x302), 7);
}

#[test]
fn store_and_load_registers() {
    let mut interp = Interpreter::with_seed(1);
    run(&mut interp, &[0x6011, 0x6122, 0x6233, 0x6344, 0xA400, 0xF255]);
    assert_eq!(interp.ram.read_byte(0x400), 0x11);
    assert_eq!(interp.ram.read_byte(0x401), 0x22);
    assert_eq!(interp.ram.read_byte(0x402), 0x33);
    assert_eq!(interp.ram.read_byte(0x403), 0);
    run(&mut interp, &[0x6000, 0x6100, 0x6200, 0x6300, 0xF165]);
    assert_eq!(interp.register(0), 0x11);
    assert_eq!(interp.register(1), 0x22);
    assert_eq!(interp.register(2), 0);
    assert_eq!(interp.register(3), 0);
}

#[test]
fn clear_screen() {
    let mut interp = Interpreter::with_seed(1);
    run(&mut interp, &[0xF029, 0xD005]);
    assert!(set_pixels(&interp) > 0);
    interp.display_flag = false;
    run(&mut interp, &[0x00E0]);
    assert_eq!(set_pixels(&interp), 0);
    assert!(interp.display_flag);
}

#[test]
fn draw_places_leftmost_pixel_in_low_bit() {
    let mut interp = Interpreter::with_seed(1);
    interp.ram.set(0x300, &vec![0x80, 0x01]);
    run(&mut interp, &[0xA300, 0x6005, 0x6103, 0xD012]);
    assert_eq!(interp.display_buffer[3], 1u64 << 5);
    assert_eq!(interp.display_buffer[4], 1u64 << 12);
    assert_eq!(interp.register(0xF), 0);
    assert!(interp.display_flag);
}

#[test]
fn draw_wraps_at_edges() {
    let mut interp = Interpreter::with_seed(1);
    interp.ram.set(0x300, &vec![0xFF, 0xFF]);
    run(&mut interp, &[0xA300, 0x607C, 0x615F, 0xD012]);
    // column 0x7C mod 64 = 60, row 0x5F mod 32 = 31
    let row_bits = 0xF000_0000_0000_000Fu64;
    assert_eq!(interp.display_buffer[31], row_bits);
    assert_eq!(interp.display_buffer[0], row_bits);
    assert_eq!(set_pixels(&interp), 16);
}

#[test]
fn draw_twice_restores_and_collides() {
    let mut interp = Interpreter::with_seed(1);
    interp.ram.set(0x300, &vec![0x3C, 0x42, 0x81]);
    run(&mut interp, &[0xA300, 0x6011, 0x6107, 0xD013]);
    let once = interp.display_buffer;
    assert_eq!(interp.register(0xF), 0);
    assert_eq!(set_pixels(&interp), 8);
    run(&mut interp, &[0xD013]);
    assert_eq!(interp.display_buffer, [0u64; DISPLAY_HEIGHT]);
    assert_eq!(interp.register(0xF), 1);
    run(&mut interp, &[0xD013]);
    assert_eq!(interp.display_buffer, once);
}

#[test]
fn draw_over_partly_lit_region() {
    let mut interp = Interpreter::with_seed(1);
    interp.ram.set(0x300, &vec![0xF0]);
    interp.display_buffer[0] = 0b0101;
    let before = interp.display_buffer;
    run(&mut interp, &[0xA300, 0x6000, 0x6100, 0xD011]);
    assert_eq!(interp.display_buffer[0], 0b1010);
    assert_eq!(interp.register(0xF), 1);
    run(&mut interp, &[0xD011]);
    assert_eq!(interp.display_buffer, before);
    assert_eq!(interp.register(0xF), 1);
}

#[test]
fn single_draw_program_runs_to_its_loop() {
    let program: Vec<u8> = vec![
        0xA2, 0x0A, // I := 0x20A
        0x60, 0x0C, // V0 := 12
        0x61, 0x08, // V1 := 8
        0xD0, 0x15, // draw 5 rows at (V0, V1)
        0x12, 0x08, // jump to itself
        0xF0, 0x90, 0xF0, 0x90, 0xF0, // glyph
    ];
    let mut interp = Interpreter::with_seed(1);
    interp.load_rom(&program);
    assert_eq!(interp.ram.get_instruction(PROGRAM_START), 0xA20A);
    let mut raised = 0;
    let mut steps = 0;
    loop {
        assert_eq!(interp.next_fault(), None);
        let pc = interp.pc();
        interp.step();
        steps += 1;
        if interp.display_flag {
            raised += 1;
            interp.display_flag = false;
        }
        if interp.pc() == pc {
            break;
        }
        assert!(steps < 100);
    }
    assert_eq!(steps, 5);
    assert_eq!(raised, 1);
    assert_eq!(set_pixels(&interp), 16);
    assert_eq!(interp.display_buffer[8], 0xFu64 << 12);
    assert_eq!(interp.display_buffer[9], 0x9u64 << 12);
    assert_eq!(interp.register(0xF), 0);
}

#[test]
fn step_stops_at_memory_end() {
    let mut interp = Interpreter::with_seed(1);
    run(&mut interp, &[0x1FFF]);
    assert_eq!(interp.next_fault(), Some(Fault::Bounds));
    let mut interp = Interpreter::with_seed(1);
    interp.ram.set(0xFFE, &vec![0x00, 0xE0]);
    run(&mut interp, &[0x1FFE]);
    assert_eq!(interp.next_fault(), None);
    run(&mut interp, &[0x1000]);
    assert_eq!(interp.next_fault(), Some(Fault::Decode));
    let mut interp = Interpreter::with_seed(1);
    interp.load_rom(&[0xE1, 0x9E]);
    assert_eq!(interp.next_fault(), Some(Fault::Decode));
}

#[test]
fn pixel_reads_framebuffer_bits() {
    let mut interp = Interpreter::with_seed(1);
    interp.display_buffer[2] = (1u64 << 63) | 1;
    assert!(interp.pixel(2, 0));
    assert!(interp.pixel(2, 63));
    assert!(!interp.pixel(2, 1));
    assert!(!interp.pixel(3, 0));
}

#[test]
fn operand_bits_outside_the_table_are_fatal() {
    let mut interp = Interpreter::with_seed(1);
    run(&mut interp, &[0x2300]);
    assert_eq!(interp.fault(0x5121), Some(Fault::Decode));
    assert_eq!(interp.fault(0x912F), Some(Fault::Decode));
    assert_eq!(interp.fault(0x01E0), Some(Fault::Decode));
    assert_eq!(interp.fault(0x0FEE), Some(Fault::Decode));
    assert_eq!(interp.fault(0x5120), None);
    assert_eq!(interp.fault(0x9120), None);
    assert_eq!(interp.fault(0x00EE), None);
}

#[test]
fn fresh_interpreters_draw_random_bytes() {
    let mut interp = Interpreter::new();
    run(&mut interp, &[0xC1F0]);
    assert_eq!(interp.register(1) & 0x0F, 0);
    assert_eq!(interp.pc(), PROGRAM_START + 2);
}
