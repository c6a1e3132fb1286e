//! Command-line settings of the Sudoku program.
use vstd::prelude::*;

verus! {

/// The solving method and the board, as given on the command line.
pub struct Config {
    pub method: String,
    pub board_string: String,
}

impl Config {
    /// Reads the method from `args[1]` and the board from `args[2]`.
    pub fn build(args: &[String]) -> (r: Result<Config, &'static str>)
        requires
            args@.len() >= 3,
        ensures
            r matches Ok(c) && c.method@ == args@[1]@ && c.board_string@ == args@[2]@,
    {
        let method = args[1].clone();
        let board_string = args[2].clone();
        Ok(Config { method, board_string })
    }
}

} // verus!
