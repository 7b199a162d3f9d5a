//! The rewrite engine: an ordered rule set applied to a working string until
//! no rule matches.
use vstd::prelude::*;
use crate::rules::{lines_of, parse_rules, parse_text, rules_view, ParseError, Rule};
use crate::text::{first_occurrence, lemma_first_occurrence, occurs_at, replace_first, replace_leftmost};

verus! {

/// The index of the first rule, at or after `i`, whose pattern occurs in `s`.
pub open spec fn first_match_from(rules: Seq<(Seq<char>, Seq<char>)>, s: Seq<char>, i: int) -> Option<int>
    decreases rules.len() - i,
{
    if i < 0 || i >= rules.len() {
        None
    } else if first_occurrence(s, rules[i].0) is Some {
        Some(i)
    } else {
        first_match_from(rules, s, i + 1)
    }
}

/// The index of the first rule whose pattern occurs in `s`: the rule that
/// applies to `s`.
pub open spec fn first_match(rules: Seq<(Seq<char>, Seq<char>)>, s: Seq<char>) -> Option<int> {
    first_match_from(rules, s, 0)
}

/// One rewriting step: the first rule that matches replaces the leftmost
/// occurrence of its pattern. Nothing where no rule matches (a fixpoint).
pub open spec fn rewrite_step(rules: Seq<(Seq<char>, Seq<char>)>, s: Seq<char>) -> Option<Seq<char>> {
    match first_match(rules, s) {
        Some(i) => Some(replace_first(s, rules[i].0, rules[i].1)),
        None => None,
    }
}

/// The fixpoint reached from `s` within `fuel` steps, if one is.
pub open spec fn rewrite_within(rules: Seq<(Seq<char>, Seq<char>)>, s: Seq<char>, fuel: nat) -> Option<Seq<char>>
    decreases fuel,
{
    match rewrite_step(rules, s) {
        None => Some(s),
        Some(t) => if fuel == 0 {
            None
        } else {
            rewrite_within(rules, t, (fuel - 1) as nat)
        },
    }
}

/// Rewriting `s` reaches a fixpoint after finitely many steps.
pub open spec fn halts(rules: Seq<(Seq<char>, Seq<char>)>, s: Seq<char>) -> bool {
    exists|n: nat| #[trigger] rewrite_within(rules, s, n) is Some
}

/// The fixpoint that rewriting `s` reaches (meaningful where it halts).
pub open spec fn rewrite_result(rules: Seq<(Seq<char>, Seq<char>)>, s: Seq<char>) -> Seq<char> {
    rewrite_within(rules, s, choose|n: nat| #[trigger] rewrite_within(rules, s, n) is Some)->0
}

/// A fixpoint reached within some number of steps is reached, the same,
/// with any larger number.
pub proof fn lemma_rewrite_within_mono(rules: Seq<(Seq<char>, Seq<char>)>, s: Seq<char>, n: nat, m: nat)
    requires
        rewrite_within(rules, s, n) is Some,
        n <= m,
    ensures
        rewrite_within(rules, s, m) == rewrite_within(rules, s, n),
    decreases n,
{
    match rewrite_step(rules, s) {
        None => {},
        Some(t) => {
            lemma_rewrite_within_mono(rules, t, (n - 1) as nat, (m - 1) as nat);
        },
    }
}

/// A fixpoint reached within some number of steps is the result.
pub proof fn lemma_rewrite_result(rules: Seq<(Seq<char>, Seq<char>)>, s: Seq<char>, n: nat)
    requires
        rewrite_within(rules, s, n) is Some,
    ensures
        halts(rules, s),
        rewrite_within(rules, s, n) == Some(rewrite_result(rules, s)),
        rewrite_step(rules, rewrite_result(rules, s)) is None,
    decreases n,
{
    let c = choose|n: nat| #[trigger] rewrite_within(rules, s, n) is Some;
    if n <= c {
        lemma_rewrite_within_mono(rules, s, n, c);
    } else {
        lemma_rewrite_within_mono(rules, s, c, n);
    }
    match rewrite_step(rules, s) {
        None => {},
        Some(t) => {
            lemma_rewrite_result(rules, t, (n - 1) as nat);
        },
    }
}

/// The first matching rule at or after `h` comes no later than a rule `i`
/// (at or after `h`) that matches.
proof fn lemma_first_match_no_later(rules: Seq<(Seq<char>, Seq<char>)>, s: Seq<char>, h: int, i: int)
    requires
        0 <= h <= i < rules.len(),
        first_occurrence(s, rules[i].0) is Some,
    ensures
        first_match_from(rules, s, h) matches Some(k) && h <= k <= i,
    decreases i - h,
{
    if first_occurrence(s, rules[h].0) is None {
        lemma_first_match_no_later(rules, s, h + 1, i);
    }
}

/// Rewriting is idempotent: where rewriting `s` halts, rewriting its result
/// halts at once and gives that result again.
pub proof fn lemma_run_idempotent(rules: Seq<(Seq<char>, Seq<char>)>, s: Seq<char>)
    requires
        halts(rules, s),
    ensures
        halts(rules, rewrite_result(rules, s)),
        rewrite_result(rules, rewrite_result(rules, s)) == rewrite_result(rules, s),
{
    let n = choose|n: nat| #[trigger] rewrite_within(rules, s, n) is Some;
    lemma_rewrite_result(rules, s, n);
    let r = rewrite_result(rules, s);
    assert(rewrite_within(rules, r, 0) == Some(r));
    lemma_rewrite_result(rules, r, 0);
}

/// Priority by order: where rules `i` and `j`, `i` before `j`, both occur in
/// `s` (at any positions), the step applies a rule no later than `i`, so
/// never `j`.
pub proof fn lemma_priority(
    rules: Seq<(Seq<char>, Seq<char>)>,
    s: Seq<char>,
    i: int,
    j: int,
    mi: int,
    mj: int,
)
    requires
        0 <= i < j < rules.len(),
        occurs_at(s, rules[i].0, mi),
        occurs_at(s, rules[j].0, mj),
    ensures
        first_match(rules, s) matches Some(k) && k <= i && k != j && rewrite_step(rules, s) == Some(
            replace_first(s, rules[k].0, rules[k].1),
        ),
{
    lemma_first_occurrence(s, rules[i].0, mi);
    lemma_first_match_no_later(rules, s, 0, i);
}

/// One occurrence per step: where the applied rule's pattern occurs at `m`,
/// the step replaces its leftmost occurrence, at or before `m`, and keeps
/// everything before and after that occurrence as it was.
pub proof fn lemma_leftmost_only(rules: Seq<(Seq<char>, Seq<char>)>, s: Seq<char>, i: int, m: int)
    requires
        first_match(rules, s) == Some(i),
        occurs_at(s, rules[i].0, m),
    ensures
        first_occurrence(s, rules[i].0) matches Some(k) && k <= m && occurs_at(s, rules[i].0, k)
            && (forall|j: int| 0 <= j < k ==> !#[trigger] occurs_at(s, rules[i].0, j))
            && rewrite_step(rules, s) == Some(
            s.subrange(0, k) + rules[i].1 + s.subrange(k + rules[i].0.len(), s.len() as int),
        ),
{
    lemma_first_occurrence(s, rules[i].0, m);
}

/// An ordered set of rewrite rules.
#[derive(Debug)]
pub struct Program {
    rules: Vec<Rule>,
}

impl View for Program {
    type V = Seq<(Seq<char>, Seq<char>)>;

    /// The rules as (pattern, replacement) pairs, in priority order.
    closed spec fn view(&self) -> Seq<(Seq<char>, Seq<char>)> {
        rules_view(self.rules@)
    }
}

impl Program {
    /// Reads rule text: one rule per line that is neither blank nor starts
    /// with `#`, in the order of the lines. A rule line without `=` is an
    /// error that names it.
    pub fn new(text: &str) -> (r: Result<Program, ParseError>)
        ensures
            match parse_text(text@) {
                Ok(rs) => r matches Ok(p) && p@ == rs,
                Err(k) => r matches Err(e) && e.line == k + 1 && e.text@ == lines_of(text@)[k],
            },
    {
        match parse_rules(text) {
            Ok(rules) => Ok(Program { rules }),
            Err(e) => Err(e),
        }
    }

    /// The number of rules.
    pub fn len(&self) -> (n: usize)
        ensures
            n == self@.len(),
    {
        self.rules.len()
    }

    /// One rewriting step on `s`: the result of the first rule whose pattern
    /// occurs in `s`, or nothing where `s` is a fixpoint.
    pub fn step(&self, s: &str) -> (r: Option<String>)
        ensures
            r matches Some(t) ==> rewrite_step(self@, s@) == Some(t@),
            r is None ==> rewrite_step(self@, s@) is None,
    {
        let mut i: usize = 0;
        while i < self.rules.len()
            invariant
                i <= self.rules@.len(),
                first_match(self@, s@) == first_match_from(self@, s@, i as int),
            decreases self.rules@.len() - i,
        {
            let rule = &self.rules[i];
            assert(self@[i as int] == rule@);
            match replace_leftmost(s, rule.pattern.as_str(), rule.replacement.as_str()) {
                Some(t) => {
                    return Some(t);
                },
                None => {},
            }
            i = i + 1;
        }
        None
    }

    /// Rewrites `input` until no rule matches, and returns that fixpoint.
    /// Where rewriting goes on forever, so does this function: such inputs
    /// are outside its contract.
    pub fn run(&self, input: &str) -> (r: String)
        requires
            halts(self@, input@),
        ensures
            r@ == rewrite_result(self@, input@),
            rewrite_step(self@, r@) is None,
    {
        let mut cur = String::from_str(input);
        let ghost mut fuel: nat = choose|n: nat| #[trigger] rewrite_within(self@, input@, n) is Some;
        proof {
            lemma_rewrite_result(self@, input@, fuel);
        }
        loop
            invariant
                rewrite_within(self@, cur@, fuel) == Some(rewrite_result(self@, input@)),
            decreases fuel,
        {
            match self.step(cur.as_str()) {
                None => {
                    return cur;
                },
                Some(t) => {
                    cur = t;
                    proof {
                        fuel = (fuel - 1) as nat;
                    }
                },
            }
        }
    }

    /// Rewrites `input` for at most `max_steps` steps: the fixpoint where one
    /// is reached within them, nothing otherwise.
    pub fn run_bounded(&self, input: &str, max_steps: usize) -> (r: Option<String>)
        ensures
            r matches Some(t) ==> rewrite_within(self@, input@, max_steps as nat) == Some(t@),
            r is None ==> rewrite_within(self@, input@, max_steps as nat) is None,
    {
        let mut cur = String::from_str(input);
        let mut left: usize = max_steps;
        loop
            invariant
                rewrite_within(self@, input@, max_steps as nat) == rewrite_within(
                    self@,
                    cur@,
                    left as nat,
                ),
            decreases left,
        {
            match self.step(cur.as_str()) {
                None => {
                    return Some(cur);
                },
                Some(t) => {
                    if left == 0 {
                        return None;
                    }
                    cur = t;
                    left = left - 1;
                },
            }
        }
    }
}

} // verus!
