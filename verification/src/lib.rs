//! A verified checker for textual chemical equations.
//!
//! An input line such as `2H2 + O2 -> 2H2O` is parsed into an [`Equation`]
//! of `+`-separated terms, each term a multiplier and a list of molecules,
//! and the equation is judged balanced when both sides carry the same
//! total atom count for every element name.

pub mod chemistry;
pub mod numerals;

pub use chemistry::{Equation, Molecule, Token};

use vstd::prelude::*;

verus! {

use crate::chemistry::all_digit_chars;

/// A string is a numeral when every one of its characters is a decimal digit.
pub trait IsNumber where Self: View<V = Seq<char>> {
    fn is_num(&self) -> (r: bool)
        ensures
            r == all_digit_chars(self@),
    ;
}

impl IsNumber for String {
    fn is_num(&self) -> (r: bool)
        ensures
            r == all_digit_chars(self@),
    {
        crate::chemistry::str_all_digits(self.as_str())
    }
}

pub fn cool_fn() {
    let string = String::new();
    let _is_num = string.is_num();
}

} // verus!
