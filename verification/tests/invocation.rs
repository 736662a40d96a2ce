use dirtree::invocation::{
    parse_depth, read_args, usage, Invocation, InvocationError, DEFAULT_MAX_DEPTH,
};

fn args(list: &[&str]) -> Vec<String> {
    list.iter().map(|arg| arg.to_string()).collect()
}

#[test]
fn a_path_alone_is_rendered_two_levels_deep() {
    assert_eq!(DEFAULT_MAX_DEPTH, 2);
    assert_eq!(
        read_args(&args(&["tree", "some/dir"])),
        Ok(Invocation { path: "some/dir".to_string(), max_depth: 2 })
    );
}

#[test]
fn a_path_and_a_depth() {
    assert_eq!(
        read_args(&args(&["tree", ".", "0"])),
        Ok(Invocation { path: ".".to_string(), max_depth: 0 })
    );
    assert_eq!(
        read_args(&args(&["tree", "/", "17"])),
        Ok(Invocation { path: "/".to_string(), max_depth: 17 })
    );
    assert_eq!(
        read_args(&args(&["tree", "", "4294967295"])),
        Ok(Invocation { path: "".to_string(), max_depth: u32::MAX })
    );
}

#[test]
fn too_few_or_too_many_arguments_are_a_usage_error() {
    assert_eq!(read_args(&args(&[])), Err(InvocationError::Usage));
    assert_eq!(read_args(&args(&["tree"])), Err(InvocationError::Usage));
    assert_eq!(read_args(&args(&["tree", "a", "1", "b"])), Err(InvocationError::Usage));
    assert_eq!(read_args(&args(&["tree", "a", "x", "b", "c"])), Err(InvocationError::Usage));
}

#[test]
fn a_depth_that_is_no_number_is_a_depth_error() {
    assert_eq!(read_args(&args(&["tree", "a", "deep"])), Err(InvocationError::Depth));
    assert_eq!(read_args(&args(&["tree", "a", "-1"])), Err(InvocationError::Depth));
    assert_eq!(read_args(&args(&["tree", "a", ""])), Err(InvocationError::Depth));
    assert_eq!(read_args(&args(&["tree", "a", "4294967296"])), Err(InvocationError::Depth));
}

#[test]
fn depths_are_read_as_decimal_numbers() {
    assert_eq!(parse_depth("0"), Some(0));
    assert_eq!(parse_depth("2"), Some(2));
    assert_eq!(parse_depth("10"), Some(10));
    assert_eq!(parse_depth("007"), Some(7));
    assert_eq!(parse_depth("+5"), Some(5));
    assert_eq!(parse_depth("4294967295"), Some(4294967295));
    assert_eq!(parse_depth("0000000004294967295"), Some(4294967295));
}

#[test]
fn what_is_no_depth_is_refused() {
    for text in [
        "", "+", "-", "-0", "-1", "++1", "+-1", "1+", "1.0", "1e3", "0x10", "1_000", " 1", "1 ",
        "one", "١", "１", "4294967296", "4294967300", "42949672950", "99999999999999999999",
    ] {
        assert_eq!(parse_depth(text), None, "{:?}", text);
    }
}

#[test]
fn depths_are_read_as_the_standard_library_reads_them() {
    let mut samples: Vec<String> = Vec::new();
    for head in ["", "+", "-", "0", "00", " ", "a"] {
        for body in ["", "0", "9", "42", "429496729", "4294967295", "4294967296", "5000000000"] {
            for tail in ["", "0", "5", " ", "x", "+"] {
                samples.push(format!("{}{}{}", head, body, tail));
            }
        }
    }
    for text in samples {
        assert_eq!(parse_depth(&text), text.parse::<u32>().ok(), "{:?}", text);
    }
}

#[test]
fn usage_is_two_lines_and_names_the_program() {
    assert_eq!(
        usage("target/tree"),
        vec!["Usage: tree PATH", "Example: target/tree path/to/folder [:depth]"]
    );
    assert_eq!(usage(""), vec!["Usage: tree PATH", "Example:  path/to/folder [:depth]"]);
}
