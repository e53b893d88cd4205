use ddbug_parser::base::parse_base_data;
use ddbug_parser::enums::{parse_enum_data, try_parse_enum_data};
use ddbug_parser::file::{parse_file_data, parse_sections, try_parse_file_data};
use ddbug_parser::ftype::{handle_members, parse_type_data, try_parse_type_data};
use ddbug_parser::gvar::parse_g_var_data;
use ddbug_parser::structure::parse_struct_data;
use ddbug_parser::unit::{parse_unit, try_parse_unit};

#[test]
fn base_block() {
    let b = parse_base_data("base unsigned int\n\tsize: 4\n\tencoding: unsigned\n");
    assert_eq!(b.base_name, "unsigned int");
    assert_eq!(b.base_size, 4);
    assert_eq!(b.base_encoding, "unsigned");
}

#[test]
fn base_block_without_name() {
    let b = parse_base_data("base\n\tbase: char \n");
    assert_eq!(b.base_name, "char");
    let b = parse_base_data("base\n");
    assert_eq!(b.base_name, "unparsed name");
    assert_eq!(b.base_size, 0);
    assert_eq!(b.base_encoding, "");
}

#[test]
fn enum_block() {
    let e = parse_enum_data(
        "enum Color\n\tsource: /src/colors.h:3:6\n\tsize: 4\n\tenumerators:\n\t\tRED(0)\n\t\tGREEN(1)\n\t\tBLUE(-2)\n",
    );
    assert_eq!(e.enum_name, "Color");
    assert_eq!(e.enum_full_file_path, "/src/colors.h:3:6");
    assert_eq!(e.enum_line_num, 3);
    assert_eq!(e.enum_line_col, 6);
    assert_eq!(e.enum_size, 4);
    assert_eq!(
        e.enumerators,
        vec![("RED".to_string(), 0), ("GREEN".to_string(), 1), ("BLUE".to_string(), -2)]
    );
}

#[test]
fn enum_later_value_replaces_earlier() {
    let e = parse_enum_data("enum E\n\tsize: 1\n\tenumerators:\n\t\tA(1)\n\t\tB(2)\n\t\tA(7)\n");
    assert_eq!(e.enumerators, vec![("A".to_string(), 7), ("B".to_string(), 2)]);
}

#[test]
fn enum_block_without_name_or_location() {
    let e = parse_enum_data("enum\n\tsource: /src/\n");
    assert_eq!(e.enum_name, "Error: failed to parse struct name");
    assert_eq!(e.enum_full_file_path, "/src/");
    assert_eq!(e.enum_line_num, 0);
    assert!(e.enumerators.is_empty());
}

#[test]
fn enum_cut_past_the_end() {
    assert!(try_parse_enum_data("enum E\n\t\t\tenumerators:").is_none());
}

#[test]
fn enum_cut_follows_the_tabs() {
    let e = parse_enum_data("enum E\n\t\tenumerators:\n\t\t\tA(1)\n");
    assert_eq!(e.enumerators, vec![("A".to_string(), 1)]);
    let e = try_parse_enum_data("enum E\n\tsize: 2\n").unwrap();
    assert_eq!(e.enum_size, 2);
    assert!(e.enumerators.is_empty());
}

#[test]
fn struct_block() {
    let s = parse_struct_data(
        "struct point\n\tsource: /src/p.h:1:8\n\tsize: 8\n\tmembers:\n\t\t0[4]\tx: int\n\t\t4[4]\ty: int\n\t\t8[4]\t<padding>: [u8; 4]\n",
    );
    assert_eq!(s.s_name, "point");
    assert_eq!(s.s_full_file_path, "/src/p.h:1:8");
    assert_eq!((s.s_line_num, s.s_line_col, s.s_size), (1, 8, 8));
    assert_eq!(s.s_members.len(), 3);
    let x = &s.s_members[0];
    assert_eq!((x.sm_running_total, x.sm_size), (0, 4));
    assert_eq!(x.sm_name, "x");
    assert_eq!(x.sm_type, "int");
    let y = &s.s_members[1];
    assert_eq!((y.sm_running_total, y.sm_size), (4, 4));
    assert_eq!(y.sm_name, "y");
    assert_eq!(y.sm_type, "int");
    let pad = &s.s_members[2];
    assert_eq!((pad.sm_running_total, pad.sm_size), (8, 4));
    assert_eq!(pad.sm_name, "<padding>");
    assert_eq!(pad.sm_type, "");
}

#[test]
fn struct_every_member_listed() {
    let s = parse_struct_data(
        "struct S\n\tsource: a.c:1:2\n\tsize: 8\n\tmembers:\n\t\t0[4]\ta: int\n\t\t4[4]\tb: int\n",
    );
    assert_eq!(s.s_name, "S");
    assert_eq!(s.s_full_file_path, "a.c:1:2");
    assert_eq!((s.s_line_num, s.s_line_col, s.s_size), (1, 2, 8));
    let got: Vec<(String, String, u32, u32)> = s
        .s_members
        .iter()
        .map(|m| (m.sm_name.clone(), m.sm_type.clone(), m.sm_running_total, m.sm_size))
        .collect();
    assert_eq!(
        got,
        vec![
            ("a".to_string(), "int".to_string(), 0, 4),
            ("b".to_string(), "int".to_string(), 4, 4),
        ]
    );
}

#[test]
fn struct_member_pieces() {
    let s = parse_struct_data("struct s\n\tmembers:\nheader\nplain\n2[1]\n3[1]n: <padding> bytes\n");
    assert_eq!(s.s_members.len(), 4);
    let err = "[ERROR 545] Failed to parse field member name \"";
    assert_eq!(s.s_members[0].sm_name, err);
    assert_eq!(s.s_members[0].sm_running_total, 0xFD);
    assert_eq!(s.s_members[0].sm_size, 0);
    assert_eq!(s.s_members[1].sm_name, err);
    assert_eq!(s.s_members[2].sm_name, "");
    assert_eq!(s.s_members[2].sm_type, "");
    assert_eq!((s.s_members[2].sm_running_total, s.s_members[2].sm_size), (2, 1));
    assert_eq!(s.s_members[3].sm_name, "n");
    assert_eq!(s.s_members[3].sm_type, "<padding>");
}

#[test]
fn struct_heading_without_members() {
    assert!(parse_struct_data("struct S\n\t\t\tmembers:").s_members.is_empty());
    assert!(parse_struct_data("struct S\n\tsize: 1\n").s_members.is_empty());
}

#[test]
fn type_block() {
    let t = parse_type_data("type myint = int\n\tsource: /src/t.h:2:13\n\tsize: 4\n");
    assert_eq!(t.ftype_name, "myint");
    assert_eq!(t.type_base_type, "int");
    assert_eq!(t.type_full_file_path, "/src/t.h:2:13");
    assert_eq!((t.type_line_num, t.type_line_col, t.type_size), (2, 13, 4));
    assert!(t.type_members.is_none());
}

#[test]
fn type_block_without_equals() {
    let t = parse_type_data("type handle\n");
    assert_eq!(t.ftype_name, "handle");
    assert_eq!(t.type_base_type, "Failed to parse the real underlying type");
    let t = parse_type_data("type\n");
    assert_eq!(t.ftype_name, "unparsed name");
}

#[test]
fn type_block_members() {
    let t = parse_type_data("type pt = struct\n\tsize: 8\n\tmembers:\n\t\t0[4]\tx: int\n");
    let ms = t.type_members.unwrap();
    assert_eq!(ms.len(), 2);
    assert_eq!(ms[0].sm_name, "");
    assert_eq!(ms[0].sm_type, "");
    assert_eq!((ms[0].sm_running_total, ms[0].sm_size), (0, 0));
    assert_eq!(ms[1].sm_name, "x");
    assert_eq!(ms[1].sm_type, "int");
    assert_eq!((ms[1].sm_running_total, ms[1].sm_size), (0, 4));
    let t = parse_type_data(
        "type pt = struct\n\tsource: /s/t.h:1:1\n\tsize: 8\n\tmembers:\n\t\t0[4]\tx: int\n\t\t4[4]\ty: int\n",
    );
    let names: Vec<String> = t.type_members.unwrap().into_iter().map(|m| m.sm_name).collect();
    assert_eq!(names, vec!["x".to_string(), "y".to_string()]);
}

#[test]
fn type_cut_past_the_end() {
    assert!(try_parse_type_data("type t\n\t\t\tmembers:").is_none());
}

#[test]
fn type_cut_inside_a_character() {
    assert!(try_parse_type_data("type t\n\t\t\tmembers:\u{e9}").is_none());
    assert!(try_parse_type_data("type t\n\t\tmembers:\u{e9}").is_some());
}

#[test]
fn type_members_need_the_marker_in_the_raw_text() {
    assert!(handle_members("members\t:\nx").is_none());
    let ms = handle_members("s:\n1[2]a: b\n").unwrap();
    assert_eq!(ms.len(), 2);
    assert_eq!(ms[0].sm_type, "");
    assert_eq!(ms[1].sm_name, "a");
    assert_eq!(ms[1].sm_type, "b");
    assert_eq!((ms[1].sm_running_total, ms[1].sm_size), (1, 2));
}

#[test]
fn global_variable_block() {
    let v = parse_g_var_data(
        "var counter: int\n\tsource: /src/c.c:5:12\n\tsize: 4\n\tdeclaration: yes\n",
    );
    assert_eq!(v.g_var_name, "counter");
    assert_eq!(v.g_var_type, "int");
    assert_eq!(v.g_var_full_file_path, "/src/c.c:5:12");
    assert_eq!((v.g_var_line_num, v.g_var_line_col, v.g_var_size), (5, 12, 4));
    assert!(v.g_var_decl);
}

#[test]
fn global_variable_without_type() {
    let v = parse_g_var_data("var lonely\n\tsize: 2\n");
    assert_eq!(v.g_var_name, "Error: failed to global/static variable");
    assert!(!v.g_var_decl);
    assert_eq!(v.g_var_size, 2);
    let v = parse_g_var_data("var var x: int\n");
    assert_eq!(v.g_var_name, "x");
}

#[test]
fn unit_block() {
    let u = parse_unit(
        "unit src/main.c\n\taddresses:\n\t\t0x1000-0x1100 (256)\n\tunknown addresses:\n\t\t0x2000-0x2010 (16)\n\tfn size: 256\n\tvar size: 8\n\tunknown size: 16\n",
    );
    assert_eq!(u.file_path, "src/main.c");
    assert_eq!(u.file_name, "main.c");
    assert_eq!(u.addresses.len(), 1);
    assert_eq!(u.addresses[0].start_address, "0x1000");
    assert_eq!(u.addresses[0].end_address, "0x1100");
    assert_eq!(u.addresses[0].total_size, 256);
    let unknown = u.unknown_addresses.unwrap();
    assert_eq!(unknown.len(), 1);
    assert_eq!(unknown[0].total_size, 16);
    assert_eq!(u.function_size, 256);
    assert_eq!(u.var_size, 8);
    assert_eq!(u.unknown_size, 16);
}

#[test]
fn unit_every_size_line_read() {
    let u = parse_unit(
        "unit src/main.c\n\taddresses:\n\t\t0x10-0x20 (16)\n\tunknown addresses:\n\t\t0x30-0x38 (8)\n\tfn size: 16\n\tvar size: 4\n\tunknown size: 8\n",
    );
    assert_eq!(u.file_name, "main.c");
    assert_eq!(u.file_path, "src/main.c");
    assert_eq!(u.addresses.len(), 1);
    assert_eq!(u.addresses[0].start_address, "0x10");
    assert_eq!(u.addresses[0].end_address, "0x20");
    assert_eq!(u.addresses[0].total_size, 16);
    let unknown = u.unknown_addresses.unwrap();
    assert_eq!(unknown.len(), 1);
    assert_eq!(unknown[0].start_address, "0x30");
    assert_eq!(unknown[0].end_address, "0x38");
    assert_eq!(unknown[0].total_size, 8);
    assert_eq!((u.function_size, u.var_size, u.unknown_size), (16, 4, 8));
}

#[test]
fn unit_block_header_only() {
    let u = parse_unit("unit src/a.c\n");
    assert_eq!(u.file_path, "src/a.c");
    assert_eq!(u.file_name, "a.c");
    assert!(u.addresses.is_empty());
    assert!(u.unknown_addresses.is_none());
}

#[test]
fn unit_with_bad_address() {
    assert!(try_parse_unit("unit a.c\n\tx\n\t0xbad\n").is_none());
    assert!(try_parse_unit("unit a.c\n\tx\n\t0x1-0x2 (1)\n").is_some());
}

#[test]
fn file_block() {
    let text = "file main.o\n\taddresses:\n\t\t0x1000-0x1100 (256)\n\tx\n\tsize: 300\n\tfn size: 256\n\tvar size: 40\n\tother size: 4\n\tproducer: gcc\n\tsections:\n\tskipped\n\t.text\n\tsize: 256\n\taddress: 0x1000-0x1100\n\t.data\n\tsize: 40\n";
    let (f, notes) = parse_file_data(text);
    assert_eq!(f.filename, "main.o");
    assert_eq!(f.address_data.len(), 1);
    assert_eq!(f.address_data[0].total_size, 256);
    assert_eq!((f.total_size, f.fn_size, f.var_size, f.other_size), (300, 256, 40, 4));
    assert_eq!(notes, vec!["producer".to_string()]);
    assert_eq!(f.sections.len(), 2);
    assert_eq!(f.sections[0].name, "text");
    assert_eq!(f.sections[0].size, 256);
    assert_eq!(f.sections[0].start_address, "0x1000");
    assert_eq!(f.sections[0].end_address, "0x1100");
    assert_eq!(f.sections[1].name, "data");
    assert_eq!(f.sections[1].size, 40);
    assert_eq!(f.sections[1].start_address, "");
}

#[test]
fn file_blocks_that_panic() {
    assert!(try_parse_file_data("file only").is_none());
    assert!(try_parse_file_data("file a\n\tx\n\tsize: 3\n").is_none());
    assert!(try_parse_file_data("file a\n\tx\n\tsections:\n\tskipped").is_none());
    assert!(try_parse_file_data("file a\n\tx\n\ty\n\tsections:\n\tskipped\n").is_some());
}

#[test]
fn sections_from_items() {
    let s = parse_sections(&vec![
        "name:bss".to_string(),
        " size : 12 ".to_string(),
        "address: 0x10-0x1c".to_string(),
        "other".to_string(),
    ]);
    assert_eq!(s.name, "bss");
    assert_eq!(s.size, 12);
    assert_eq!(s.start_address, "0x10");
    assert_eq!(s.end_address, "0x1c");
    let s = parse_sections(&vec!["name".to_string()]);
    assert_eq!(s.name, "0x0");
}

#[test]
fn base_last_size_line_wins() {
    let b = parse_base_data("base int\n\tsize: 4\n\tencoding: signed\n\tsize: 8\n");
    assert_eq!(b.base_name, "int");
    assert_eq!(b.base_size, 8);
    assert_eq!(b.base_encoding, "signed");
}
