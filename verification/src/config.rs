//! The three settings of a run, taken from its arguments.

use vstd::prelude::*;
use vstd::std_specs::iter::IteratorSpec;

verus! {

/// What to do, and with which files.
#[derive(Debug)]
pub struct Config {
    /// The action asked for.
    pub action: String,
    /// The file to read.
    pub input_path: String,
    /// The file to write.
    pub output_path: String,
}

/// The message for a missing action.
pub open spec fn no_action() -> Seq<char> {
    "No action supplied."@
}

/// The message for a missing input path.
pub open spec fn no_input_path() -> Seq<char> {
    "No input file path supplied"@
}

/// The message for a missing output path.
pub open spec fn no_output_path() -> Seq<char> {
    "No output file path supplied"@
}

/// The message for arguments that are too few: it names the first setting
/// that is missing.
pub open spec fn missing(given: nat) -> Seq<char> {
    if given <= 1 {
        no_action()
    } else if given == 2 {
        no_input_path()
    } else {
        no_output_path()
    }
}

impl Config {
    /// Takes the settings from the arguments of a run: the first argument
    /// (the program's name) is passed over, the next three are the action,
    /// the input path and the output path; any further ones are ignored.
    /// Where one of the three is missing, the message says which.
    pub fn build<I: Iterator<Item = String>>(mut args: I) -> (r: Result<Config, &'static str>)
        ensures
            args.obeys_prophetic_iter_laws() ==> (match r {
                Ok(c) => args.remaining().len() >= 4 && c.action == args.remaining()[1]
                    && c.input_path == args.remaining()[2] && c.output_path
                    == args.remaining()[3],
                Err(e) => args.remaining().len() < 4 && e@ == missing(args.remaining().len()),
            }),
    {
        args.next();
        let action = match args.next() {
            Some(arg) => arg,
            None => return Err("No action supplied."),
        };
        let input_path = match args.next() {
            Some(arg) => arg,
            None => return Err("No input file path supplied"),
        };
        let output_path = match args.next() {
            Some(arg) => arg,
            None => return Err("No output file path supplied"),
        };
        Ok(Config { action, input_path, output_path })
    }
}

} // verus!
