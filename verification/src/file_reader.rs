//! The decisions of reading a log file line by line: each line read is
//! parsed; a line that cannot be parsed is skipped, and its error reported,
//! the first one as a warning and the others at debug level only.

use vstd::prelude::*;
use crate::consumers::bumped;
use crate::line_parser::{parse_line, ParseLogError, Parser};
use crate::log_line::LogLine;
use crate::text::Outcome;

verus! {

/// How to report a line that could not be parsed.
#[derive(Debug, Clone, Copy, PartialEq, Eq, Structural)]
pub enum ErrorReport {
    /// The first error of the file: a warning.
    Warn,
    /// The second: a warning that the others are logged at debug level, then the error at debug level.
    WarnThenDebug,
    /// Any later one: at debug level.
    Debug,
}

/// What became of a line read.
#[derive(Debug)]
pub enum LineStep {
    /// The line, parsed.
    Parsed(LogLine),
    /// The line was skipped; its error is to be reported as `report` says.
    Skipped { error: ParseLogError, report: ErrorReport },
}

/// The report for the error that follows `errors` earlier ones.
pub open spec fn report_for(errors: usize) -> ErrorReport {
    if errors == 0 {
        ErrorReport::Warn
    } else if errors == 1 {
        ErrorReport::WarnThenDebug
    } else {
        ErrorReport::Debug
    }
}

/// A log file being read: the parser of its lines and the number of lines
/// that could not be parsed so far.
pub struct LogFile<'c> {
    parser: &'c Parser,
    errors: usize,
}

impl<'c> LogFile<'c> {
    pub closed spec fn parser(&self) -> &'c Parser {
        self.parser
    }

    /// The number of lines skipped so far (at most `usize::MAX`).
    pub closed spec fn errors(&self) -> usize {
        self.errors
    }

    pub fn new(parser: &'c Parser) -> (r: LogFile<'c>)
        ensures
            r.parser() == parser,
            r.errors() == 0,
    {
        LogFile { parser, errors: 0 }
    }

    /// Handles a line read: its parse, or its error and how to report it;
    /// `None` on the lines on which the parser panics.
    pub fn next_line(&mut self, line: &str) -> (r: Option<LineStep>)
        ensures
            final(self).parser() == old(self).parser(),
            match parse_line(old(self).parser()@, line@) {
                Outcome::Done(Ok(v)) => r matches Some(LineStep::Parsed(ll)) && ll@ == v
                    && final(self).errors() == old(self).errors(),
                Outcome::Done(Err(f)) => r matches Some(LineStep::Skipped { error, report })
                    && error@ == f && report == report_for(old(self).errors())
                    && final(self).errors() == bumped(old(self).errors()),
                Outcome::Panics => r is None && final(self).errors() == old(self).errors(),
            },
    {
        match self.parser.try_parse(line) {
            None => None,
            Some(Ok(log_line)) => Some(LineStep::Parsed(log_line)),
            Some(Err(e)) => {
                let report = if self.errors == 0 {
                    ErrorReport::Warn
                } else if self.errors == 1 {
                    ErrorReport::WarnThenDebug
                } else {
                    ErrorReport::Debug
                };
                if self.errors < usize::MAX {
                    self.errors = self.errors + 1;
                }
                Some(LineStep::Skipped { error: e, report })
            },
        }
    }
}

} // verus!
