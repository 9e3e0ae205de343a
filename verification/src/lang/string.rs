//! The text of a Burn string value.

use vstd::prelude::*;
use vstd::string::*;
use vstd::utf8::*;

verus! {

/// The text of a Burn string.
pub struct String {
    value: std::string::String,
}

impl View for String {
    type V = Seq<char>;

    closed spec fn view(&self) -> Seq<char> {
        self.value@
    }
}

impl String {
    pub fn new(value: std::string::String) -> (s: String)
        ensures
            s@ == value@,
    {
        String { value }
    }

    pub fn get_value(&self) -> (value: &str)
        ensures
            value@ == self@,
    {
        self.value.as_str()
    }

    /// The length of the text in bytes of UTF-8.
    pub fn len(&self) -> (n: usize)
        ensures
            n == encode_utf8(self@).len(),
    {
        self.value.as_str().as_bytes().len()
    }

    /// A string with the same text.
    pub fn duplicate(&self) -> (s: String)
        ensures
            s@ == self@,
            s == *self,
    {
        String { value: self.value.clone() }
    }
}

} // verus!
