//! The program's input: where to read it from, what was read, and what it
//! holds.

use vstd::prelude::*;

verus! {

/// Where the input comes from.
pub struct Config {
    pub filename: String,
}

/// The text of the input file.
pub struct Rawinput {
    pub contents: String,
}

/// The rain duration and the terrain profile that the input holds.
pub struct Data {
    pub duration: u64,
    pub profile: Vec<u64>,
}

impl Config {
    /// The file named by the first argument after the program name, else
    /// `default`.
    pub fn new(args: &[String], default: &'static str) -> (r: Config)
        ensures
            args@.len() > 1 ==> r.filename@ == args@[1]@,
            args@.len() <= 1 ==> r.filename@ == default@,
    {
        let filename = if args.len() > 1 {
            args[1].clone()
        } else {
            default.to_owned()
        };
        Config { filename }
    }
}

} // verus!
