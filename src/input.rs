//! Which input a run reads: standard input, or the file named by the first argument.
use vstd::prelude::*;

verus! {

/// Where the lines of a run come from.
#[derive(Debug)]
pub enum InputSource {
    /// The process's standard input.
    Stdin,
    /// The file at this path.
    File(String),
}

/// The choice between standard input and a file named on the command line.
pub struct StdinOrFile;

impl StdinOrFile {
    /// The input for the command-line arguments `args`, the program's own name first:
    /// the file named by the first argument where there is one, else standard input.
    /// Arguments after the first are ignored.
    pub fn select(args: &Vec<String>) -> (r: InputSource)
        ensures
            args@.len() >= 2 ==> (r matches InputSource::File(p) && p@ == args@[1]@),
            args@.len() < 2 ==> r is Stdin,
    {
        if args.len() >= 2 {
            InputSource::File(args[1].clone())
        } else {
            InputSource::Stdin
        }
    }
}

} // verus!
