//! The two values a run needs: where the rules are and what to rewrite.
use vstd::prelude::*;

verus! {

/// The rule file's name and the input string, borrowed from the arguments.
#[derive(Debug)]
pub struct Config<'a> {
    filename: &'a str,
    input: &'a str,
}

impl<'a> View for Config<'a> {
    type V = (Seq<char>, Seq<char>);

    /// The file name and the input.
    closed spec fn view(&self) -> (Seq<char>, Seq<char>) {
        (self.filename@, self.input@)
    }
}

impl<'a> Config<'a> {
    /// Takes the rule file's name from `args[1]` and the input from
    /// `args[2]` (`args[0]` is the program's name); fails where there are
    /// fewer than three arguments.
    pub fn new(args: &'a [String]) -> (r: Result<Config<'a>, &'static str>)
        ensures
            r is Ok <==> args@.len() >= 3,
            r matches Ok(c) ==> c@ == (args@[1]@, args@[2]@),
            r matches Err(m) ==> m@ == "Not enough arguments."@,
    {
        if args.len() < 3 {
            return Err("Not enough arguments.");
        }
        let filename = args[1].as_str();
        let input = args[2].as_str();
        Ok(Config { filename, input })
    }

    /// The name of the rule file.
    pub fn filename(&self) -> (r: &'a str)
        ensures
            r@ == self@.0,
    {
        self.filename
    }

    /// The string to rewrite.
    pub fn input(&self) -> (r: &'a str)
        ensures
            r@ == self@.1,
    {
        self.input
    }
}

} // verus!
