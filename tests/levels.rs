use atob::Program;

#[test]
fn atob_1_1() {
    let program = Program::new("a=b").unwrap();
    let input = "abc";
    let output = "bbc";
    assert_eq!(program.run(input), output)
}

#[test]
fn atob_1_2() {
    let program = Program::new("\
a=A
b=B
c=C").unwrap();
    let input = "abc";
    let output = "ABC";
    assert_eq!(program.run(input), output)
}

#[test]
fn atob_1_3() {
    let program = Program::new("\
aa=a
bb=b
cc=c").unwrap();
    let input = "aabccca";
    let output = "abca";
    assert_eq!(program.run(input), output)
}

#[test]
fn atob_1_4() {
    let program = Program::new("\
aaa=aa
aa=").unwrap();
    let input = "aaabacaa";
    let output = "bac";
    assert_eq!(program.run(input), output)
}

#[test]
fn atob_1_5() {
    let program = Program::new("\
ab=
ba=
aa=a
bb=b").unwrap();
    let input = "aabbaa";
    let output = "a";
    assert_eq!(program.run(input), output)
}

#[test]
fn atob_1_6() {
    let program = Program::new("\
ba=ab
cb=bc
ca=ac").unwrap();
    let input = "caba";
    let output = "aabc";
    assert_eq!(program.run(input), output)
}

// Alternating rules never reach a fixpoint: no step budget is enough, and
// the string keeps switching between the two forms.
#[test]
fn infinite_loop() {
    let program = Program::new("\
a=b
b=a").unwrap();
    let input = "a";
    assert_eq!(program.run_bounded(input, 1000), None);
    assert_eq!(program.run_bounded(input, 1001), None);
    assert_eq!(program.step("a").unwrap(), "b");
    assert_eq!(program.step("b").unwrap(), "a");
}
