//! Rule text: lines of `pattern=replacement`, comments and blank lines.
use vstd::prelude::*;
use crate::text::chars_of;

verus! {

/// One rewrite rule: the leftmost occurrence of `pattern` becomes `replacement`.
#[derive(Debug)]
pub struct Rule {
    pub pattern: String,
    pub replacement: String,
}

impl View for Rule {
    type V = (Seq<char>, Seq<char>);

    open spec fn view(&self) -> (Seq<char>, Seq<char>) {
        (self.pattern@, self.replacement@)
    }
}

/// A rule line without a `=` separator.
#[derive(Debug)]
pub struct ParseError {
    /// The number of the offending line, counted from 1.
    pub line: usize,
    /// The offending line.
    pub text: String,
}

/// The pieces of `t` between newline characters, in order (one piece for a
/// text without newline, an empty piece after a final newline).
pub open spec fn raw_lines(t: Seq<char>) -> Seq<Seq<char>>
    decreases t.len(),
{
    if t.len() == 0 {
        seq![Seq::empty()]
    } else {
        let ls = raw_lines(t.drop_last());
        if t.last() == '\n' {
            ls.push(Seq::empty())
        } else {
            ls.update(ls.len() - 1, ls.last().push(t.last()))
        }
    }
}

/// A line with the carriage return of a `\r\n` ending taken off.
pub open spec fn strip_cr(l: Seq<char>) -> Seq<char> {
    if l.len() > 0 && l.last() == '\r' {
        l.drop_last()
    } else {
        l
    }
}

/// The lines of rule text: the pieces between newlines, where a piece ended
/// by a newline also loses a carriage return before it.
pub open spec fn lines_of(t: Seq<char>) -> Seq<Seq<char>> {
    let raw = raw_lines(t);
    raw.drop_last().map_values(|l: Seq<char>| strip_cr(l)).push(raw.last())
}

/// The first position at or after `k` where `l` holds `c`, if any.
pub open spec fn index_of(l: Seq<char>, c: char, k: int) -> Option<int>
    decreases l.len() - k,
{
    if k < 0 || k >= l.len() {
        None
    } else if l[k] == c {
        Some(k)
    } else {
        index_of(l, c, k + 1)
    }
}

/// A blank line or a comment line (first character `#`): it gives no rule.
pub open spec fn is_skipped(l: Seq<char>) -> bool {
    l.len() == 0 || l[0] == '#'
}

/// The rule of a line: the text before the first `=` as pattern, the text
/// between it and the next `=` (or the end of the line) as replacement.
/// Nothing where the line holds no `=`.
pub open spec fn rule_of_line(l: Seq<char>) -> Option<(Seq<char>, Seq<char>)> {
    match index_of(l, '=', 0) {
        None => None,
        Some(e) => {
            let end = match index_of(l, '=', e + 1) {
                Some(f) => f,
                None => l.len() as int,
            };
            Some((l.subrange(0, e), l.subrange(e + 1, end)))
        },
    }
}

/// The rules of a sequence of lines in order, or the index of the first line
/// that is neither skipped nor holds a `=`.
pub open spec fn parse_lines(ls: Seq<Seq<char>>) -> Result<Seq<(Seq<char>, Seq<char>)>, int>
    decreases ls.len(),
{
    if ls.len() == 0 {
        Ok(Seq::empty())
    } else {
        match parse_lines(ls.drop_last()) {
            Err(k) => Err(k),
            Ok(rs) => if is_skipped(ls.last()) {
                Ok(rs)
            } else {
                match rule_of_line(ls.last()) {
                    Some(r) => Ok(rs.push(r)),
                    None => Err(ls.len() - 1),
                }
            },
        }
    }
}

/// The rules of rule text, or the index of its first line without `=`.
pub open spec fn parse_text(t: Seq<char>) -> Result<Seq<(Seq<char>, Seq<char>)>, int> {
    parse_lines(lines_of(t))
}

/// A blank or comment line inserted among lines gives no rule and changes
/// none: parsing gives the same rules, or fails on the same line (one place
/// further on where it comes after the inserted line).
pub proof fn lemma_skipped_line(ls: Seq<Seq<char>>, i: int, c: Seq<char>)
    requires
        0 <= i <= ls.len(),
        is_skipped(c),
    ensures
        parse_lines(ls) matches Ok(rs) ==> parse_lines(ls.insert(i, c)) == Ok::<_, int>(rs),
        parse_lines(ls) matches Err(k) ==> parse_lines(ls.insert(i, c)) == Err::<
            Seq<(Seq<char>, Seq<char>)>,
            int,
        >(if k < i { k } else { k + 1 }),
    decreases ls.len(),
{
    let ins = ls.insert(i, c);
    lemma_parse_lines_err_bound(ls);
    if i == ls.len() {
        assert(ins.drop_last() =~= ls);
    } else {
        assert(ins.drop_last() =~= ls.drop_last().insert(i, c));
        assert(ins.last() == ls.last());
        lemma_skipped_line(ls.drop_last(), i, c);
        lemma_parse_lines_err_bound(ls.drop_last());
    }
}

/// Every text has at least one piece.
proof fn lemma_raw_lines_len(t: Seq<char>)
    ensures
        raw_lines(t).len() >= 1,
    decreases t.len(),
{
    if t.len() > 0 {
        lemma_raw_lines_len(t.drop_last());
    }
}

/// A text without newline is one piece.
proof fn lemma_raw_lines_single(t: Seq<char>)
    requires
        forall|j: int| 0 <= j < t.len() ==> t[j] != '\n',
    ensures
        raw_lines(t) == seq![t],
    decreases t.len(),
{
    if t.len() > 0 {
        lemma_raw_lines_single(t.drop_last());
        assert(t.drop_last().push(t.last()) =~= t);
        assert(seq![t.drop_last()].update(0, t.drop_last().push(t.last())) =~= seq![t]);
    } else {
        assert(t =~= Seq::<char>::empty());
    }
}

/// After text that ends a line, the pieces of what follows come as they are.
proof fn lemma_raw_lines_append(u: Seq<char>, v: Seq<char>)
    requires
        u.len() == 0 || u.last() == '\n',
    ensures
        raw_lines(u + v) == raw_lines(u).drop_last() + raw_lines(v),
    decreases v.len(),
{
    lemma_raw_lines_len(v);
    if u.len() == 0 {
        assert(u + v =~= v);
        assert(raw_lines(u).drop_last() + raw_lines(v) =~= raw_lines(v));
    } else if v.len() == 0 {
        assert(u + v =~= u);
        assert(u.drop_last().push(u.last()) =~= u);
        assert(raw_lines(u).drop_last() + raw_lines(v) =~= raw_lines(u));
    } else {
        let a = raw_lines(u).drop_last();
        let x = raw_lines(v.drop_last());
        assert((u + v).drop_last() =~= u + v.drop_last());
        lemma_raw_lines_append(u, v.drop_last());
        lemma_raw_lines_len(v.drop_last());
        if v.last() == '\n' {
            assert((a + x).push(Seq::empty()) =~= a + x.push(Seq::empty()));
        } else {
            let l = x.last().push(v.last());
            assert((a + x).update(a.len() + x.len() - 1, l) =~= a + x.update(x.len() - 1, l));
        }
    }
}

/// After text that ends a line, the lines of what follows come as they are.
proof fn lemma_lines_of_append(u: Seq<char>, v: Seq<char>)
    requires
        u.len() == 0 || u.last() == '\n',
    ensures
        lines_of(u + v) == lines_of(u).drop_last() + lines_of(v),
{
    lemma_raw_lines_append(u, v);
    lemma_raw_lines_len(u);
    lemma_raw_lines_len(v);
    let a = raw_lines(u).drop_last();
    let x = raw_lines(v);
    assert((a + x).drop_last() =~= a + x.drop_last());
    assert((a + x).last() == x.last());
    assert((a + x.drop_last()).map_values(|l: Seq<char>| strip_cr(l)) =~= a.map_values(
        |l: Seq<char>| strip_cr(l),
    ) + x.drop_last().map_values(|l: Seq<char>| strip_cr(l)));
    assert(lines_of(u + v) =~= lines_of(u).drop_last() + lines_of(v));
}

/// A blank or comment line written into rule text, at the start of a line,
/// gives no rule and changes none: the text parses to the same rules as
/// without it, or fails on the same line (one line further on where that
/// comes after it).
pub proof fn lemma_skipped_line_in_text(before: Seq<char>, c: Seq<char>, after: Seq<char>)
    requires
        before.len() == 0 || before.last() == '\n',
        is_skipped(c),
        forall|j: int| 0 <= j < c.len() ==> c[j] != '\n',
    ensures
        parse_text(before + after) matches Ok(rs) ==> parse_text(before + c.push('\n') + after)
            == Ok::<_, int>(rs),
        parse_text(before + after) matches Err(k) ==> parse_text(before + c.push('\n') + after)
            == Err::<Seq<(Seq<char>, Seq<char>)>, int>(
            if k < lines_of(before).len() - 1 {
                k
            } else {
                k + 1
            },
        ),
{
    let cl = c.push('\n');
    lemma_raw_lines_single(c);
    assert(cl.drop_last() =~= c);
    assert(lines_of(cl) =~= seq![strip_cr(c), Seq::empty()]);
    lemma_lines_of_append(cl, after);
    lemma_lines_of_append(before, cl + after);
    lemma_lines_of_append(before, after);
    assert(before + cl + after =~= before + (cl + after));
    let b = lines_of(before).drop_last();
    let la = lines_of(after);
    assert(lines_of(cl + after) =~= seq![strip_cr(c)] + la);
    assert(b + (seq![strip_cr(c)] + la) =~= (b + la).insert(b.len() as int, strip_cr(c)));
    lemma_skipped_line(b + la, b.len() as int, strip_cr(c));
}

/// The line that parsing fails on is one of the lines.
pub proof fn lemma_parse_lines_err_bound(ls: Seq<Seq<char>>)
    ensures
        parse_lines(ls) matches Err(k) ==> 0 <= k < ls.len(),
    decreases ls.len(),
{
    if ls.len() > 0 {
        lemma_parse_lines_err_bound(ls.drop_last());
    }
}

/// The views of a sequence of rules.
pub open spec fn rules_view(rs: Seq<Rule>) -> Seq<(Seq<char>, Seq<char>)> {
    rs.map_values(|r: Rule| r@)
}

/// The first position at or after `k` where `l` holds `c`, if any.
fn index_of_exec(l: &Vec<char>, c: char, k: usize) -> (r: Option<usize>)
    ensures
        r matches Some(i) ==> index_of(l@, c, k as int) == Some(i as int),
        r is None ==> index_of(l@, c, k as int) is None,
{
    let mut i: usize = k;
    while i < l.len()
        invariant
            k <= i,
            index_of(l@, c, k as int) == index_of(l@, c, i as int),
        decreases l@.len() - i,
    {
        if l[i] == c {
            return Some(i);
        }
        i = i + 1;
    }
    None
}

/// What one line contributes to a rule set.
enum LineKind {
    Skipped,
    Found(Rule),
    MissingSeparator,
}

/// Reads one line (without its line ending).
fn parse_line(line: &str) -> (r: LineKind)
    ensures
        r is Skipped <==> is_skipped(line@),
        r matches LineKind::Found(x) ==> rule_of_line(line@) == Some(x@),
        r is MissingSeparator ==> rule_of_line(line@) is None,
{
    let l = chars_of(line);
    if l.len() == 0 || l[0] == '#' {
        return LineKind::Skipped;
    }
    match index_of_exec(&l, '=', 0) {
        None => LineKind::MissingSeparator,
        Some(e) => {
            proof {
                lemma_index_of_bounds(l@, '=', 0);
            }
            let end: usize = match index_of_exec(&l, '=', e + 1) {
                Some(f) => f,
                None => l.len(),
            };
            proof {
                lemma_index_of_bounds(l@, '=', e + 1);
            }
            let pattern = String::from_str(line.substring_char(0, e));
            let replacement = String::from_str(line.substring_char(e + 1, end));
            LineKind::Found(Rule { pattern, replacement })
        },
    }
}

/// A position that `index_of` returns lies in the line, at or after the start.
proof fn lemma_index_of_bounds(l: Seq<char>, c: char, k: int)
    ensures
        index_of(l, c, k) matches Some(i) ==> k <= i < l.len() && l[i] == c,
    decreases l.len() - k,
{
    if k < 0 || k >= l.len() {
    } else if l[k] == c {
    } else {
        lemma_index_of_bounds(l, c, k + 1);
    }
}

/// `rules` are the rules of the lines `done` where `err` is empty, and `err`
/// names the first line of `done` without `=` otherwise.
spec fn parsed_so_far(done: Seq<Seq<char>>, rules: Seq<Rule>, err: Option<ParseError>) -> bool {
    match err {
        None => parse_lines(done) == Ok::<_, int>(rules_view(rules)),
        Some(e) => parse_lines(done) == Err::<Seq<(Seq<char>, Seq<char>)>, int>(e.line - 1) && 1 <= e.line <= done.len() && e.text@
            == done[e.line - 1],
    }
}

/// Adds the line `line`, which follows the lines `done`, to what was parsed.
fn take_line(
    line: &str,
    index: usize,
    rules: &mut Vec<Rule>,
    err: &mut Option<ParseError>,
    Ghost(done): Ghost<Seq<Seq<char>>>,
)
    requires
        index == done.len(),
        line@.len() == 0 || index < usize::MAX,
        parsed_so_far(done, old(rules)@, *old(err)),
    ensures
        parsed_so_far(done.push(line@), final(rules)@, *final(err)),
{
    let ghost ls = done.push(line@);
    assert(ls.drop_last() =~= done);
    if err.is_some() {
        return;
    }
    match parse_line(line) {
        LineKind::Skipped => {},
        LineKind::Found(r) => {
            rules.push(r);
            assert(rules_view(rules@) =~= rules_view(old(rules)@).push(r@));
        },
        LineKind::MissingSeparator => {
            *err = Some(ParseError { line: index + 1, text: String::from_str(line) });
        },
    }
}

/// Parses rule text into its rules, in the order of their lines, or reports
/// the first line that is neither blank, nor a comment, nor holds a `=`.
pub fn parse_rules(text: &str) -> (r: Result<Vec<Rule>, ParseError>)
    ensures
        match parse_text(text@) {
            Ok(rs) => r matches Ok(v) && rules_view(v@) == rs,
            Err(k) => r matches Err(e) && e.line == k + 1 && e.text@ == lines_of(text@)[k],
        },
{
    let chars = chars_of(text);
    let mut rules: Vec<Rule> = Vec::new();
    let mut err: Option<ParseError> = None;
    let mut start: usize = 0;
    let mut n_done: usize = 0;
    let mut i: usize = 0;
    let ghost mut done: Seq<Seq<char>> = Seq::empty();
    assert(text@.subrange(0, 0) =~= Seq::<char>::empty());
    assert(rules_view(rules@) =~= Seq::empty());
    while i < chars.len()
        invariant
            chars@ == text@,
            n_done <= start <= i <= chars.len(),
            n_done == done.len(),
            raw_lines(text@.subrange(0, i as int)).len() == n_done + 1,
            raw_lines(text@.subrange(0, i as int)).last() == text@.subrange(start as int, i as int),
            raw_lines(text@.subrange(0, i as int)).drop_last().map_values(
                |l: Seq<char>| strip_cr(l),
            ) == done,
            parsed_so_far(done, rules@, err),
        decreases chars@.len() - i,
    {
        let ghost prev = raw_lines(text@.subrange(0, i as int));
        assert(text@.subrange(0, i + 1).drop_last() =~= text@.subrange(0, i as int));
        if chars[i] == '\n' {
            let end: usize = if i > start && chars[i - 1] == '\r' {
                i - 1
            } else {
                i
            };
            let line = text.substring_char(start, end);
            assert(line@ == strip_cr(prev.last()));
            take_line(line, n_done, &mut rules, &mut err, Ghost(done));
            proof {
                assert(prev.push(Seq::empty()).drop_last() =~= prev);
                assert(prev.map_values(|l: Seq<char>| strip_cr(l)) =~= done.push(line@));
                done = done.push(line@);
            }
            n_done = n_done + 1;
            start = i + 1;
            assert(text@.subrange(start as int, i + 1) =~= Seq::<char>::empty());
        } else {
            proof {
                let next = prev.update(prev.len() - 1, prev.last().push(chars@[i as int]));
                assert(next.drop_last() =~= prev.drop_last());
                assert(text@.subrange(start as int, i + 1) =~= prev.last().push(chars@[i as int]));
            }
        }
        i = i + 1;
    }
    assert(text@.subrange(0, i as int) =~= text@);
    let line = text.substring_char(start, i);
    take_line(line, n_done, &mut rules, &mut err, Ghost(done));
    match err {
        Some(e) => Err(e),
        None => Ok(rules),
    }
}

} // verus!
