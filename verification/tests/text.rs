use ai_memory::text::{append_padded, append_repeated, decimal};

fn padded(text: &str, width: usize) -> String {
    let mut out = String::new();
    append_padded(&mut out, text, width);
    out
}

#[test]
fn decimal_writes_every_number_as_std_does() {
    for n in [0, 1, 9, 10, 11, 42, 99, 100, 101, 12_345, 4_294_967_296, u64::MAX] {
        assert_eq!(decimal(n), n.to_string());
    }
    assert_eq!(decimal(1_203), "1203");
}

#[test]
fn padding_aligns_left_and_never_cuts() {
    assert_eq!(padded("ab", 4), "ab  ");
    assert_eq!(padded("abcd", 4), "abcd");
    assert_eq!(padded("abcde", 4), "abcde");
    assert_eq!(padded("", 2), "  ");
    assert_eq!(padded("äö", 4), format!("{:<4}", "äö"));
}

#[test]
fn repeated_text_is_appended() {
    let mut out = String::from("x");
    append_repeated(&mut out, "ab", 3);
    assert_eq!(out, "xababab");
    append_repeated(&mut out, "-", 0);
    assert_eq!(out, "xababab");
}
