//! The driver-facing façade: runs scans and accumulates whether any lexical
//! error was seen. Reading files, prompting and printing are a host's
//! business, not this crate's.

use vstd::prelude::*;

use crate::scan_model::scan_model;
use crate::scanner::Scanner;

verus! {

/// Holds the command-line arguments a host handed over and whether the last
/// run surfaced an error.
#[derive(Debug)]
pub struct Interpreter {
    pub args: Vec<String>,
    had_error: bool,
}

impl Interpreter {
    /// Whether an error has been recorded since the last run began.
    pub closed spec fn spec_has_error(&self) -> bool {
        self.had_error
    }

    /// The command-line arguments this interpreter was given.
    pub closed spec fn spec_args(&self) -> Seq<String> {
        self.args@
    }

    pub fn new_with_args(args: Vec<String>) -> (it: Interpreter)
        ensures
            it.spec_args() == args@,
            !it.spec_has_error(),
    {
        Interpreter { args, had_error: false }
    }

    pub fn has_error(&self) -> (r: bool)
        ensures
            r == self.spec_has_error(),
    {
        self.had_error
    }

    /// Record an error reported at `line`. Displaying `location` and
    /// `message` is the host's business; here only the error state changes.
    #[allow(unused_variables)]
    pub fn report(&mut self, line: usize, location: String, message: String)
        ensures
            final(self).spec_has_error(),
            final(self).spec_args() == old(self).spec_args(),
    {
        self.had_error = true;
    }

    #[allow(dead_code)]
    fn error(&mut self, line: usize, message: String)
        ensures
            final(self).spec_has_error(),
            final(self).spec_args() == old(self).spec_args(),
    {
        self.report(line, "".to_owned(), message);
    }

    /// Scan `source` from a clean error state; the result, and the error
    /// state afterwards, say exactly whether the scan surfaced a lexical
    /// error.
    pub fn run_source(&mut self, source: String) -> (had_error: bool)
        ensures
            had_error == (scan_model(source@).errors.len() != 0),
            final(self).spec_has_error() == had_error,
            final(self).spec_args() == old(self).spec_args(),
    {
        self.had_error = false;
        let mut scanner = Scanner::new(source);
        scanner.scan_tokens();
        if scanner.errors().len() > 0 {
            self.had_error = true;
        }
        self.had_error
    }
}

} // verus!
