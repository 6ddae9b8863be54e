use kernel::ansi_colors::{Green, Red, Yellow};

#[test]
fn colors_wrap_text_in_escape_sequences() {
    assert_eq!(Green("ok").to_string(), "\x1B[32mok\x1B[0m");
    assert_eq!(Red("fail").to_string(), "\x1B[31mfail\x1B[0m");
    assert_eq!(Yellow("warn").to_string(), "\x1B[93mwarn\x1B[0m");
    assert_eq!(Green("").to_string(), "\x1B[32m\x1B[0m");
}
