use ddbug_parser::function::{
    handle_fn_inlined_functions, handle_fn_params, handle_fn_return_type, handle_fn_stack_frame,
    handle_fn_vars, parse_fn_data, try_parse_fn_data,
};

const MAIN: &str = "fn main\n\tlinkage name: main\n\tsource: /home/u/src/main.c:10:5\n\taddress: 0x1000-0x1100\n\tsize: 256\n\treturn type:\n\t\t[4]\tint\n\tparameters:\n\t\t[4]\targc: int\n\t\t\tstack: 8\n\tvariables:\n\t\t[4]\tx: int\n\t\t\tstack: -4\n\tstack frame:\n\t\t-8[4]\tx: int\n\tinlined functions:\n\t\t[12]\thelper\n\t\t\tcall source: /home/u/src/main.c:20:3\n";

#[test]
fn function_header_fields() {
    let f = parse_fn_data(MAIN);
    assert_eq!(f.name, "main");
    assert_eq!(f.linkage_name, Some("main".to_string()));
    assert_eq!(f.full_file_path, Some("/home/u/src/main.c:10:5".to_string()));
    assert_eq!((f.line_num, f.line_col), (Some(10), Some(5)));
    assert_eq!(f.address.start_address, "0x1000");
    assert_eq!(f.address.end_address, "0x1100");
    assert_eq!(f.address.total_size, 256);
    assert_eq!(f.total_size, 256);
}

#[test]
fn function_sections() {
    let f = parse_fn_data(MAIN);
    let rt = f.return_data.unwrap();
    assert_eq!(rt.return_type, "int");
    assert_eq!(rt.return_size, 4);
    let ps = f.fn_params.unwrap();
    assert_eq!(ps.len(), 1);
    assert_eq!(ps[0].fn_param_name, "argc");
    assert_eq!(ps[0].fn_param_type, "int");
    assert_eq!((ps[0].fn_param_size, ps[0].fn_param_stack_frame), (4, 8));
    let vs = f.fn_vars.unwrap();
    assert_eq!(vs.len(), 1);
    assert_eq!(vs[0].fn_var_name, "x");
    assert_eq!(vs[0].fn_var_type, Some("int".to_string()));
    assert_eq!((vs[0].fn_var_size, vs[0].fn_var_stack_frame), (4, -4));
    let fr = f.fn_stack_frame.unwrap();
    assert_eq!(fr.len(), 1);
    assert_eq!(fr[0].fn_stack_frame_name, Some("x".to_string()));
    assert_eq!(fr[0].fn_stack_frame_type, Some("int".to_string()));
    assert_eq!((fr[0].fn_stack_frame_size, fr[0].fn_stack_frame_stack_offset), (4, -8));
    let inl = f.fn_inlined_functions.unwrap();
    assert_eq!(inl.len(), 1);
    assert_eq!(inl[0].inlined_fn_name, Some("helper".to_string()));
    assert_eq!(inl[0].inlined_fn_size, 12);
    assert_eq!(inl[0].inlined_fn_call_source_path, Some("/home/u/src/main.c:20:3".to_string()));
    assert_eq!((inl[0].line_num, inl[0].line_col), (Some(20), Some(3)));
}

#[test]
fn function_address_size_is_difference() {
    let f = parse_fn_data("fn f\n\taddress: 3-10\n");
    assert_eq!(f.address.total_size, 7);
    let f = parse_fn_data("fn f\n\taddress: 3-10\n\tsize: 9\n");
    assert_eq!(f.address.total_size, 9);
    assert_eq!(f.total_size, 9);
}

#[test]
fn function_address_that_underflows() {
    assert!(try_parse_fn_data("fn f\n\taddress: 5-3\n").is_none());
    assert!(try_parse_fn_data("fn f\n\taddress: 5-5\n").is_some());
}

#[test]
fn function_without_sections() {
    let f = parse_fn_data("fn tiny\n\tsize: 2\n\treturn type:\n\tparameters:\n");
    assert_eq!(f.name, "tiny");
    let rt = f.return_data.unwrap();
    assert_eq!(rt.return_type, "");
    assert_eq!(rt.return_size, 0);
    assert!(f.fn_params.is_none());
    assert!(f.fn_vars.is_none());
    assert!(f.linkage_name.is_none());
}

#[test]
fn return_type_last_line_wins() {
    let rt = handle_fn_return_type("\treturn type:\n\t\t[4]\tint\n\t\t[8]\tlong\n\tsize: 3").unwrap();
    assert_eq!(rt.return_type, "long");
    assert_eq!(rt.return_size, 8);
}

#[test]
fn params_missing_pieces() {
    assert!(handle_fn_params(&"\tparameters:\n".to_string()).is_none());
    let ps = handle_fn_params(&"\tparameters:\n\t\t[x]\tp: t\n\t\tq\n\t\t[2]r\n".to_string()).unwrap();
    assert_eq!(ps.len(), 1);
    assert_eq!(ps[0].fn_param_size, 0xFD);
    assert_eq!(ps[0].fn_param_stack_frame, 0);
}

#[test]
fn vars_without_type_line() {
    let vs = handle_fn_vars(&"\tvariables:\n\t\tnote: 3\n".to_string()).unwrap();
    assert_eq!(vs.len(), 1);
    assert_eq!(vs[0].fn_var_type, None);
    assert_eq!(vs[0].fn_var_stack_frame, 3);
}

#[test]
fn stack_frame_gap() {
    let fr = handle_fn_stack_frame(&"\tstack frame:\n\t\t-16[8]\t<unknown>\n\t\tjunk\n".to_string())
        .unwrap();
    assert_eq!(fr.len(), 2);
    assert_eq!(fr[0].fn_stack_frame_name, Some("\t<unknown>".replace('\t', "")));
    assert_eq!(fr[0].fn_stack_frame_type, None);
    assert_eq!((fr[0].fn_stack_frame_size, fr[0].fn_stack_frame_stack_offset), (8, -16));
    assert_eq!(fr[1].fn_stack_frame_name, None);
    assert_eq!(fr[1].fn_stack_frame_size, 0);
}

#[test]
fn inlined_without_call_source() {
    let inl = handle_fn_inlined_functions(
        &"\tinlined functions:\n\t\t[3]\tf\n\t\tother: x\n\t\t[4]\tg\n".to_string(),
    )
    .unwrap();
    assert_eq!(inl.len(), 1);
    assert_eq!(inl[0].inlined_fn_name, Some("f".to_string()));
    assert_eq!(inl[0].inlined_fn_call_source_path, None);
    assert!(handle_fn_inlined_functions(&"\tinlined functions:\n\t\t[4]\tg\n".to_string()).is_none());
}

#[test]
fn function_last_address_line_wins() {
    let f = parse_fn_data("fn f\n\taddress: 1-2\n\tsize: 5\n\taddress: 3-10\n");
    assert_eq!(f.address.start_address, "3");
    assert_eq!(f.address.end_address, "10");
    assert_eq!(f.address.total_size, 7);
    assert_eq!(f.total_size, 5);
}
