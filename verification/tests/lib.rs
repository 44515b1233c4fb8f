use text2binary::convert;
use text2binary::convert_line;
use text2binary::format_text;
use text2binary::str_2_binary;

#[test]
fn test_format_text_normal() {
    let expect = "1234567890";
    assert_eq!(expect, format_text(&"123456789".to_string()))
}

#[test]
fn test_format_text_wide() {
    let expect = "1２３4";
    assert_eq!(expect, format_text(&"1２３4".to_string()))
}

#[test]
fn test_format_text_append_zero() {
    let expect = "1234xyz0";
    assert_eq!(expect, format_text(&"1234xyz".to_string()))
}

#[test]
fn test_format_text_remove_space() {
    let expect = "001122334455";
    assert_eq!(expect, format_text(&" 00 11 22 33  44 55 ".to_string()))
}

#[test]
fn test_format_text_remove_n() {
    let expect = "abcd0123";
    assert_eq!(expect, format_text(&" abcd\n0123".to_string()))
}

#[test]
fn test_format_text_remove_r() {
    let expect = "xyz56789";
    assert_eq!(expect, format_text(&" xyz\r56789".to_string()))
}

#[test]
fn test_format_text_remove_composite() {
    let expect = "xyz56789";
    assert_eq!(expect, format_text(&" xyz 56\r78\n9".to_string()))
}

#[test]
fn test_str_2_binary_08() {
    match str_2_binary(vec!['0', '8']) {
        Ok(ok) => assert_eq!(0x08, ok),
        Err(err) => panic!("{}", err.message()),
    }
}

#[test]
fn test_str_2_binary_0a() {
    match str_2_binary(vec!['0', 'a']) {
        Ok(ok) => assert_eq!(0x0a, ok),
        Err(err) => panic!("{}", err.message()),
    }
    match str_2_binary(vec!['0', 'A']) {
        Ok(ok) => assert_eq!(0x0a, ok),
        Err(err) => panic!("{}", err.message()),
    }
}

#[test]
fn test_str_2_binary_f1() {
    match str_2_binary(vec!['f', '1']) {
        Ok(ok) => assert_eq!(0xf1, ok),
        Err(err) => panic!("{}", err.message()),
    }
    match str_2_binary(vec!['F', '1']) {
        Ok(ok) => assert_eq!(0xf1, ok),
        Err(err) => panic!("{}", err.message()),
    }
}

#[test]
fn test_str_2_binary_err_000() {
    let err_msg = "Target is not two characters. target=['0', '0', '0']";
    match str_2_binary(vec!['0', '0', '0']) {
        Ok(ok) => panic!("エラーが発生しませんでした。Ok={}", ok),
        Err(err) => assert_eq!(err_msg, err.message()),
    }
}

#[test]
fn test_str_2_binary_err_1() {
    let err_msg = "Target is not two characters. target=['1']";
    match str_2_binary(vec!['1']) {
        Ok(ok) => panic!("エラーが発生しませんでした。Ok={}", ok),
        Err(err) => assert_eq!(err_msg, err.message()),
    }
}

#[test]
fn test_str_2_binary_err_0z() {
    let err_msg = "It is not a hexadecimal representation. target=z";
    match str_2_binary(vec!['0', 'z']) {
        Ok(ok) => panic!("エラーが発生しませんでした。Ok={}", ok),
        Err(err) => assert_eq!(err_msg, err.message()),
    }
}

#[test]
fn test_str_2_binary_err_wide() {
    let err_msg = "It is not a hexadecimal representation. target=１";
    match str_2_binary(vec!['１', '0']) {
        Ok(ok) => panic!("エラーが発生しませんでした。Ok={}", ok),
        Err(err) => assert_eq!(err_msg, err.message()),
    }
}

#[test]
fn test_convert() {
    let expect = vec![0x00, 0x11, 0x23, 0x45, 0x67, 0x89, 0xAB, 0xCD, 0xEF, 0x00];
    let target = "001123456789abcdEF00".to_string();

    match convert(&target) {
        Ok(ok) => assert_eq!(expect, ok),
        Err(err) => panic!("{}", err.message()),
    }
}

#[test]
fn test_convert_append_zero() {
    let expect = vec![0xAB, 0xCD, 0xE0];
    let target = "aBcDE".to_string();

    match convert(&target) {
        Ok(ok) => assert_eq!(expect, ok),
        Err(err) => panic!("{}", err.message()),
    }
}

#[test]
fn test_convert_space_and_break() {
    let expect = vec![0x12, 0x34, 0x56, 0x78, 0x9a];
    let target = "  12  34\n    56 78  9 a ".to_string();

    match convert(&target) {
        Ok(ok) => assert_eq!(expect, ok),
        Err(err) => panic!("{}", err.message()),
    }
}

#[test]
fn test_convert_empty() {
    let expect: Vec<u8> = vec![];

    match convert(&"".to_string()) {
        Ok(ok) => assert_eq!(expect, ok),
        Err(err) => panic!("{}", err.message()),
    }
}

#[test]
fn test_convert_err() {
    match convert(&"01む345".to_string()) {
        Ok(ok) => panic!("エラーが発生しませんでした。Ok={:?}", ok),
        Err(err) => assert_eq!(
            "It is not a hexadecimal representation. target=む",
            err.message()
        ),
    }
}

#[test]
fn test_convert_line() {
    let line = vec![
        "123456".to_string(),
        "abc\r\ndef".to_string(),
        "012 fde".to_string(),
    ];
    let expect = vec![0x12, 0x34, 0x56, 0xAB, 0xCD, 0xEF, 0x01, 0x2F, 0xDE];

    match convert_line(&line) {
        Ok(ok) => assert_eq!(expect, ok),
        Err(err) => panic!("{}", err.message()),
    }
}

#[test]
fn test_convert_line_zero() {
    let line: Vec<String> = vec![];
    let expect: Vec<u8> = vec![];

    match convert_line(&line) {
        Ok(ok) => assert_eq!(expect, ok),
        Err(err) => panic!("{}", err.message()),
    }
}
