use my_webgpu_app::arch::native::platform::NativeLogger;
use my_webgpu_app::arch::wasm::platform::WasmLogger;
use my_webgpu_app::platform::{Logger, NullLogger};

#[test]
fn null_logger_has_no_step() {
    let l = NullLogger;
    l.set_step(4);
    assert_eq!(l.step(), None);
}

#[test]
fn native_lines_carry_level_and_step() {
    let mut l = NativeLogger::new();
    assert_eq!(l.step(), None);
    assert_eq!(l.log_line("hi"), "[LOG] hi");
    assert_eq!(l.warn_line("w"), "[WARN] w");
    assert_eq!(l.error_line("e"), "[ERROR] e");
    l.set_step(1207);
    assert_eq!(l.step(), Some(1207));
    assert_eq!(l.log_line("hi"), "[LOG step=1207] hi");
    assert_eq!(l.warn_line("w"), "[WARN step=1207] w");
    assert_eq!(l.error_line("e"), "[ERROR step=1207] e");
}

#[test]
fn native_interval_gating() {
    let mut l = NativeLogger::default();
    assert_eq!(l.log_interval("m", 100, 1), None);
    l.set_step(250);
    assert_eq!(l.log_interval("m", 100, 1), None);
    assert_eq!(l.log_interval("m", 0, 1), None);
    l.set_step(300);
    assert_eq!(l.log_interval("m", 100, 2), Some("[LOG step=300] m".to_string()));
    assert_eq!(l.log_interval("m", 100, 2), Some("[LOG step=300] m".to_string()));
    assert_eq!(l.log_interval("m", 100, 2), None);
    l.set_step(400);
    assert_eq!(l.log_interval("n", 100, 1), Some("[LOG step=400] n".to_string()));
    assert_eq!(l.log_interval("n", 100, -1), Some("[LOG step=400] n".to_string()));
    assert_eq!(l.log_interval("n", 100, 0), None);
}

#[test]
fn wasm_lines_and_gating() {
    let mut l = WasmLogger::new();
    assert_eq!(l.line("plain"), "plain");
    l.set_step(0);
    assert_eq!(l.line("x"), "[step=0] x");
    assert_eq!(l.log_interval("y", 5, 1), Some("[step=0] y".to_string()));
    assert_eq!(l.log_interval("y", 5, 1), None);
    let d = WasmLogger::default();
    assert_eq!(d.step(), None);
}
