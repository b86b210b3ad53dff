use interstellar_os::console::ConsoleInfo;
use interstellar_os::interrupts::{InterruptIndex, IoApicTableIndex};
use interstellar_os::random::RandomNumberGenerator;
use interstellar_os::vga::{Color, ColorCode, ScreenChar};
use interstellar_os::QemuExitCode;

#[test]
fn interrupt_vectors() {
    assert_eq!(InterruptIndex::IoApic.as_u8(), 32);
    assert_eq!(InterruptIndex::Pit.as_u8(), 33);
    assert_eq!(InterruptIndex::Keyboard.as_usize(), 34);
    assert_eq!(InterruptIndex::Mouse.as_u8(), 45);
    assert_eq!(InterruptIndex::ApicError.as_u8(), 46);
    assert_eq!(InterruptIndex::Timer.as_usize(), 47);
    assert_eq!(InterruptIndex::Spurious.as_u8(), 48);
    assert_eq!(IoApicTableIndex::Pit.as_u8(), 0);
    assert_eq!(IoApicTableIndex::Keyboard.as_usize(), 1);
    assert_eq!(IoApicTableIndex::Mouse.as_usize(), 12);
}

#[test]
fn color_codes_pack_background_and_foreground() {
    let code = ColorCode::new(Color::Yellow, Color::Black);
    assert_eq!(code, ColorCode(0x0e));
    let code = ColorCode::new(Color::White, Color::Blue);
    assert_eq!(code.0, 0x1f);
    assert_eq!(code.foreground(), 15);
    assert_eq!(code.background(), 1);
    let cell = ScreenChar { ascii_character: b'A', color_code: code };
    assert_eq!(cell.color_code, ColorCode(0x1f));
}

#[test]
fn qemu_exit_codes() {
    assert_eq!(QemuExitCode::Success.code(), 0x10);
    assert_eq!(QemuExitCode::Failed.code(), 0x11);
}

#[test]
fn console_lines_and_room() {
    let mut console = ConsoleInfo::new(2);
    console.set_max_lines(5);
    assert_eq!(console.max_lines, 2);
    console.add_to_current_line("ab".to_string());
    assert_eq!(console.console_lines, vec!["ab".to_string()]);
    console.add_to_current_line("cd".to_string());
    assert_eq!(console.console_lines, vec!["abcd".to_string()]);
    console.add_new_line();
    assert_eq!(console.current_line_index, 1);
    console.add_console_line("xy".to_string());
    assert_eq!(console.console_lines, vec!["abc".to_string(), "xy".to_string()]);
    assert_eq!(console.current_line_index, 1);
    assert_eq!(console.get_console_line(1), Some("xy".to_string()));
    assert_eq!(console.get_console_line(9), None);
    assert_eq!(console.get_console_line(2), None);
    assert_eq!(console.get_console_line(3), None);
    console.set_max_lines(30);
    assert_eq!(console.max_lines, 30);
}

#[test]
fn random_numbers_follow_the_lehmer_sequence() {
    let mut rng = RandomNumberGenerator::new(Some(1));
    assert_eq!(rng.generate_number(Some(0), Some(10), None), Some(0));
    assert_eq!(rng.generate_number(Some(0), Some(25), None), Some(15));
    let mut unseeded = RandomNumberGenerator::new(None);
    assert_eq!(unseeded.generate_number(None, None, None), None);
    assert_eq!(unseeded.generate_letter(Some(7)), Some('p'));
    for _ in 0..100 {
        let n = rng.generate_number(Some(5), Some(9), None).unwrap();
        assert!((5..=9).contains(&n));
    }
}
