use picomenu::parse_line;
use picomenu::MenuError;

#[test]
fn splits_cmd_string() {
    let test_str = "mycommand random args";
    let (cmd, args) = parse_line(test_str.as_bytes()).unwrap();
    assert_eq!(cmd, "mycommand");
    assert_eq!(args, Some("random args"));
}

#[test]
fn splits_cmd_string_without_args() {
    let test_str = "mycommand";
    let (cmd, args) = parse_line(test_str.as_bytes()).unwrap();
    assert_eq!(cmd, "mycommand");
    assert_eq!(args, None);
}

#[test]
fn keeps_leading_space_in_command() {
    let (cmd, args) = parse_line(" cmd".as_bytes()).unwrap();
    assert_eq!(cmd, " cmd");
    assert_eq!(args, None);
}

#[test]
fn trailing_space_means_no_args() {
    let (cmd, args) = parse_line("cmd ".as_bytes()).unwrap();
    assert_eq!(cmd, "cmd ");
    assert_eq!(args, None);
}

#[test]
fn args_keep_further_spaces() {
    let (cmd, args) = parse_line("greet one two three".as_bytes()).unwrap();
    assert_eq!(cmd, "greet");
    assert_eq!(args, Some("one two three"));
}

#[test]
fn empty_line_is_empty_command() {
    let (cmd, args) = parse_line("".as_bytes()).unwrap();
    assert_eq!(cmd, "");
    assert_eq!(args, None);
}

#[test]
fn rejects_invalid_utf8_in_command() {
    let r = parse_line(&[0x66u8, 0xff, 0x6f]);
    assert_eq!(r, Err(MenuError::Utf8));
}

#[test]
fn rejects_invalid_utf8_in_args() {
    let r = parse_line(&[0x61u8, 0x20, 0xc3, 0x28]);
    assert_eq!(r, Err(MenuError::Utf8));
}

#[test]
fn accepts_multibyte_utf8() {
    let (cmd, args) = parse_line("grüße münchen".as_bytes()).unwrap();
    assert_eq!(cmd, "grüße");
    assert_eq!(args, Some("münchen"));
}
