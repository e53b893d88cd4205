use ddbug_parser::support::{
    address_from, file_name_of, get_line_number_and_column, parse_address, parse_address_range,
    value_to_i32, value_to_u32,
};

fn chars(s: &str) -> Vec<char> {
    s.chars().collect()
}

#[test]
fn u32_plain_and_padded() {
    assert_eq!(value_to_u32("42"), 42);
    assert_eq!(value_to_u32("  7 \t"), 7);
    assert_eq!(value_to_u32("+5"), 5);
    assert_eq!(value_to_u32("0004294967295"), u32::MAX);
}

#[test]
fn u32_fallback_is_0xfd() {
    assert_eq!(value_to_u32("abc"), 0xFD);
    assert_eq!(value_to_u32(""), 0xFD);
    assert_eq!(value_to_u32("+"), 0xFD);
    assert_eq!(value_to_u32("-1"), 0xFD);
    assert_eq!(value_to_u32("4294967296"), 0xFD);
    assert_eq!(value_to_u32("0x10"), 0xFD);
    assert_eq!(value_to_u32("1 2"), 0xFD);
}

#[test]
fn i32_values() {
    assert_eq!(value_to_i32(Some(" -12 ")), -12);
    assert_eq!(value_to_i32(Some("+3")), 3);
    assert_eq!(value_to_i32(Some("-2147483648")), i32::MIN);
    assert_eq!(value_to_i32(Some("2147483647")), i32::MAX);
}

#[test]
fn i32_fallbacks() {
    assert_eq!(value_to_i32(Some("2147483648")), 0xFD);
    assert_eq!(value_to_i32(Some("-")), 0xFD);
    assert_eq!(value_to_i32(Some("fp+8")), 0xFD);
    assert_eq!(value_to_i32(None), 0xFF);
}

#[test]
fn address_range_split_at_dash() {
    let (a, b) = parse_address_range(&"0x13dc-0x1657".to_string());
    assert_eq!(a, "0x13dc");
    assert_eq!(b, "0x1657");
    let (a, b) = parse_address_range(&" 0x1 - 0x2 - 0x3 ".to_string());
    assert_eq!(a, "0x1");
    assert_eq!(b, "0x2");
}

#[test]
fn address_range_without_dash_is_invalid() {
    let (a, b) = parse_address_range(&" lonely ".to_string());
    assert_eq!(a, "lonely");
    assert_eq!(b, "Invalid");
}

#[test]
fn address_with_size() {
    let a = parse_address("0x3cc-0x5c1 (502)");
    assert_eq!(a.start_address, "0x3cc");
    assert_eq!(a.end_address, "0x5c1");
    assert_eq!(a.total_size, 502);
}

#[test]
fn address_with_unreadable_size_is_zero() {
    let a = parse_address("0x10-0x20 (abc)");
    assert_eq!(a.start_address, "0x10");
    assert_eq!(a.end_address, "0x20");
    assert_eq!(a.total_size, 0);
}

#[test]
fn address_lines_that_do_not_read() {
    assert!(address_from(&chars("0x10-0x20")).is_none());
    assert!(address_from(&chars("0x10-0x20 502")).is_none());
    assert!(address_from(&chars("0x10 (4)")).is_none());
    assert!(address_from(&chars("0x10-0x20 (4) x")).is_none());
    assert!(address_from(&chars("0x10-0x20 (4)")).is_some());
}

#[test]
fn line_and_column() {
    assert_eq!(get_line_number_and_column("main.c:12:3"), (Some(12), Some(3)));
    assert_eq!(get_line_number_and_column(" main.c:12 "), (Some(12), None));
    assert_eq!(get_line_number_and_column("main.c"), (None, None));
    assert_eq!(get_line_number_and_column("a:1:2:3"), (Some(1), Some(3)));
    assert_eq!(get_line_number_and_column("a:x:y"), (Some(0xFD), Some(0xFD)));
}

#[test]
fn file_names_of_paths() {
    let name = |p: &str| file_name_of(&chars(p)).map(|v| v.into_iter().collect::<String>());
    assert_eq!(name("/usr/bin/"), Some("bin".to_string()));
    assert_eq!(name("tmp/foo.txt"), Some("foo.txt".to_string()));
    assert_eq!(name("foo.txt/."), Some("foo.txt".to_string()));
    assert_eq!(name("foo.txt/.//"), Some("foo.txt".to_string()));
    assert_eq!(name(" /home/u/main.c:10:5"), Some("main.c:10:5".to_string()));
    assert_eq!(name("foo.txt/.."), None);
    assert_eq!(name("/"), None);
    assert_eq!(name(""), None);
    assert_eq!(name("."), None);
}

#[test]
fn file_name_agrees_with_std_path() {
    for p in ["/usr/bin/", "a/./b", "./a", "a/../b", "..", "x//y//", " /s/m.c:1:2", "a/b/."] {
        let ours = file_name_of(&chars(p)).map(|v| v.into_iter().collect::<String>());
        let std = std::path::Path::new(p).file_name().map(|f| f.to_str().unwrap().to_string());
        assert_eq!(ours, std, "path {:?}", p);
    }
}

#[test]
fn address_text_reads_back() {
    for (s, e, n) in [("0x3cc", "0x5c1", 502u32), ("a", "b", 0), ("0x0", "0xffffffff", u32::MAX)] {
        let a = parse_address(&format!("{}-{} ({})", s, e, n));
        assert_eq!(a.start_address, s);
        assert_eq!(a.end_address, e);
        assert_eq!(a.total_size, n);
    }
}
