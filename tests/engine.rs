use atob::{Config, Program};

#[test]
fn rerunning_on_a_fixpoint_changes_nothing() {
    let program = Program::new("ba=ab\ncb=bc\nca=ac").unwrap();
    let once = program.run("cabacb");
    assert_eq!(once, "aabbcc");
    let twice = program.run(&once);
    assert_eq!(twice, once);
    assert_eq!(program.step(&once), None);
    assert_eq!(program.run_bounded(&once, 0), Some(once.clone()));
}

#[test]
fn earlier_rule_wins_even_when_later_matches_first() {
    let program = Program::new("b=x\na=y").unwrap();
    assert_eq!(program.step("ab").unwrap(), "ax");
    assert_eq!(program.run("ab"), "yx");
}

#[test]
fn only_leftmost_occurrence_is_replaced() {
    let program = Program::new("a=b").unwrap();
    assert_eq!(program.step("xaaa").unwrap(), "xbaa");
    assert_eq!(program.step("xbaa").unwrap(), "xbba");
}

#[test]
fn no_match_is_a_fixpoint() {
    let program = Program::new("z=y").unwrap();
    assert_eq!(program.step("abc"), None);
    assert_eq!(program.run("abc"), "abc");
    assert_eq!(program.run(""), "");
}

#[test]
fn empty_rule_set_keeps_input() {
    let program = Program::new("").unwrap();
    assert_eq!(program.len(), 0);
    assert_eq!(program.run("abc"), "abc");
}

#[test]
fn replacement_may_be_empty() {
    let program = Program::new("ab=").unwrap();
    assert_eq!(program.run("aabb"), "");
}

#[test]
fn replacement_may_grow_the_string() {
    let program = Program::new("a=bb").unwrap();
    assert_eq!(program.run("aca"), "bbcbb");
}

#[test]
fn bounded_run_counts_steps() {
    let program = Program::new("a=b").unwrap();
    assert_eq!(program.run_bounded("aaa", 2), None);
    assert_eq!(program.run_bounded("aaa", 3), Some("bbb".to_string()));
    assert_eq!(program.run_bounded("aaa", 10), Some("bbb".to_string()));
}

#[test]
fn empty_pattern_matches_at_the_start() {
    let program = Program::new("=x").unwrap();
    assert_eq!(program.step("ab").unwrap(), "xab");
    assert_eq!(program.run_bounded("ab", 5), None);
}

#[test]
fn non_ascii_characters_are_rewritten_whole() {
    let program = Program::new("é=e\nß=ss").unwrap();
    assert_eq!(program.run("straße café"), "strasse cafe");
}

#[test]
fn config_takes_file_and_input() {
    let args = vec!["atob".to_string(), "rules.txt".to_string(), "abc".to_string()];
    let config = Config::new(&args).unwrap();
    assert_eq!(config.filename(), "rules.txt");
    assert_eq!(config.input(), "abc");
}

#[test]
fn config_needs_three_arguments() {
    let args = vec!["atob".to_string(), "rules.txt".to_string()];
    assert_eq!(Config::new(&args).err(), Some("Not enough arguments."));
    assert_eq!(Config::new(&[]).err(), Some("Not enough arguments."));
}
