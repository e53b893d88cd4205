use ddbug_parser::enums::handle_enums;
use ddbug_parser::parsing::{get_group_range, group_blocks, start_parsing, try_start_parsing};

fn lines(v: &[&str]) -> Vec<String> {
    v.iter().map(|s| s.to_string()).collect()
}

#[test]
fn blocks_end_at_empty_lines() {
    let b = group_blocks(&lines(&["a", "b", "", "", "c"]));
    assert_eq!(b, vec!["a\nb\n".to_string(), "".to_string()]);
}

#[test]
fn group_range_of_window() {
    let r = get_group_range(&[3, 7]);
    assert_eq!((r.start, r.end), (3, 7));
    let r = get_group_range(&[5]);
    assert_eq!((r.start, r.end), (5, 0));
}

#[test]
fn units_gather_their_blocks() {
    let input = lines(&[
        "unit src/a.c", "", "fn foo", "\tsize: 10", "", "base int", "\tsize: 4", "",
        "var v: int", "", "junk here", "", "unit src/b.c", "", "fn bar", "",
    ]);
    let mut units = Vec::new();
    let notes = start_parsing(&mut units, &input);
    assert!(notes.is_empty());
    assert_eq!(units.len(), 2);
    let u = &units[0];
    assert_eq!(u.unit_data.file_name, "a.c");
    assert_eq!(u.fn_data.len(), 1);
    assert_eq!(u.fn_data[0].name, "foo");
    assert_eq!(u.fn_data[0].total_size, 10);
    assert_eq!(u.base_data.len(), 1);
    assert_eq!(u.g_var_data.len(), 1);
    assert!(u.struct_data.is_empty() && u.enum_data_v.is_empty() && u.ftype_data.is_empty());
    let last = &units[1];
    assert_eq!(last.unit_data.file_name, "b.c");
    assert_eq!(last.fn_data.len(), 1);
    assert_eq!(last.fn_data[0].name, "bar");
    assert!(last.base_data.is_empty());
}

#[test]
fn file_blocks_report_their_keys() {
    let input = lines(&[
        "unit a.c", "", "file a.o", "\tx", "\t0x1-0x2 (1)", "\tend", "\tproducer: gcc", "\tsections:", "\ty", "\t.text", "",
        "unit b.c", "",
    ]);
    let mut units = Vec::new();
    let notes = try_start_parsing(&mut units, &input).unwrap();
    assert_eq!(notes, vec!["\n----\n\n".to_string(), "producer".to_string()]);
    assert_eq!(units.len(), 2);
}

#[test]
fn single_unit_runs_to_the_end() {
    let mut units = Vec::new();
    let notes = start_parsing(&mut units, &lines(&["unit a.c", "", "fn f", "", "var v: int", ""]));
    assert!(notes.is_empty());
    assert_eq!(units.len(), 1);
    assert_eq!(units[0].unit_data.file_name, "a.c");
    assert_eq!(units[0].fn_data.len(), 1);
    assert_eq!(units[0].g_var_data.len(), 1);
}

#[test]
fn blocks_before_the_first_unit_belong_to_none() {
    let mut units = Vec::new();
    start_parsing(&mut units, &lines(&["fn early", "", "unit a.c", "", "fn f", ""]));
    assert_eq!(units.len(), 1);
    assert_eq!(units[0].fn_data.len(), 1);
    assert_eq!(units[0].fn_data[0].name, "f");
}

#[test]
fn existing_units_are_kept() {
    let mut units = Vec::new();
    start_parsing(&mut units, &lines(&["unit a.c", ""]));
    start_parsing(&mut units, &lines(&["unit b.c", ""]));
    assert_eq!(units.len(), 2);
    assert_eq!(units[0].unit_data.file_name, "a.c");
    assert_eq!(units[1].unit_data.file_name, "b.c");
}

#[test]
fn panicking_block_leaves_units_unchanged() {
    let input = lines(&["unit a.c", "", "fn f", "\taddress: 9-1", "", "unit b.c", ""]);
    let mut units = Vec::new();
    assert!(try_start_parsing(&mut units, &input).is_none());
    assert!(units.is_empty());
}

#[test]
fn enumerators_after_members_marker() {
    let es = handle_enums("enum E\n\tenumerators:\n\t\tA(1)\n\t\tB\n");
    assert_eq!(es, vec![("A".to_string(), 1)]);
}
