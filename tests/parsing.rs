use atob::Program;

#[test]
fn comments_and_blank_lines_give_no_rules() {
    let plain = Program::new("aa=a\nbb=b").unwrap();
    let commented = Program::new("# squeeze\n\naa=a\n#bb=c\n\nbb=b\n# done\n").unwrap();
    assert_eq!(plain.len(), 2);
    assert_eq!(commented.len(), 2);
    assert_eq!(commented.run("aabbba"), plain.run("aabbba"));
    assert_eq!(commented.run("aabbba"), "aba");
}

#[test]
fn text_after_second_separator_is_dropped() {
    let program = Program::new("a=b=c").unwrap();
    assert_eq!(program.len(), 1);
    assert_eq!(program.run("aa"), "bb");
}

#[test]
fn line_without_separator_is_an_error() {
    let err = Program::new("a=b\n# fine\nnoequals\nc=d").err().unwrap();
    assert_eq!(err.line, 3);
    assert_eq!(err.text, "noequals");
}

#[test]
fn first_bad_line_is_reported() {
    let err = Program::new("x\ny").err().unwrap();
    assert_eq!(err.line, 1);
    assert_eq!(err.text, "x");
}

#[test]
fn crlf_line_endings_are_accepted() {
    let program = Program::new("a=b\r\nc=d\r\n").unwrap();
    assert_eq!(program.len(), 2);
    assert_eq!(program.run("ac"), "bd");
}

#[test]
fn trailing_newline_adds_no_rule() {
    let program = Program::new("a=b\n").unwrap();
    assert_eq!(program.len(), 1);
}
