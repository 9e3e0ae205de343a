//! Where source text comes from, as shown in error messages.

use vstd::prelude::*;
use vstd::string::*;

verus! {

pub trait Origin {
    fn get_name(&self) -> &str;
}

/// Text typed at the prompt.
pub struct Stdin;

impl Origin for Stdin {
    fn get_name(&self) -> (name: &str)
        ensures
            name@ == "<stdin>"@,
    {
        "<stdin>"
    }
}

/// Text that a Rust program hands the machine, under a name of its choice.
pub struct Rust {
    pub name: String,
}

impl Origin for Rust {
    fn get_name(&self) -> (name: &str)
        ensures
            name@ == self.name@,
    {
        self.name.as_str()
    }
}

} // verus!
