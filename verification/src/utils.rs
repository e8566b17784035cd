//! String extensions used across the library.

use vstd::prelude::*;

use crate::text::{
    char_is_lowercase, char_lower_string, is_lowercase_char, lower_of, str_chars, sub_chars,
    chars_to_string,
};
use vstd::string::StringExecFns;

verus! {

/// A string with its first character mapped to lowercase.
pub open spec fn lower_first(s: Seq<char>) -> Seq<char> {
    if s.len() == 0 {
        s
    } else {
        lower_of(s[0]) + s.subrange(1, s.len() as int)
    }
}

/// String extension.
pub trait StringExt {
    /// Checks if the string is all lowercase.
    fn is_lowercase(&self) -> bool;

    /// Checks if a string starts with a lowercase character.
    fn starts_with_lowercase(&self) -> bool;

    /// Returns a new string starting with a first character in lowercase.
    fn to_lowercase_first(&self) -> String;
}

impl StringExt for str {
    /// Whether every character has the Unicode `Lowercase` property.
    fn is_lowercase(&self) -> (r: bool)
        ensures
            r == (forall|j: int| 0 <= j < self@.len() ==> char_is_lowercase(#[trigger] self@[j])),
    {
        let cs = str_chars(self);
        let mut i: usize = 0;
        while i < cs.len()
            invariant
                i <= cs@.len(),
                cs@ == self@,
                forall|j: int| 0 <= j < i ==> char_is_lowercase(#[trigger] self@[j]),
            decreases cs@.len() - i,
        {
            if !is_lowercase_char(cs[i]) {
                return false;
            }
            i = i + 1;
        }
        true
    }

    /// Whether the string is non-empty and its first character has the
    /// Unicode `Lowercase` property.
    fn starts_with_lowercase(&self) -> (r: bool)
        ensures
            r == (self@.len() > 0 && char_is_lowercase(self@[0])),
    {
        let cs = str_chars(self);
        if cs.len() == 0 {
            false
        } else {
            is_lowercase_char(cs[0])
        }
    }

    /// The string with its first character mapped to lowercase.
    fn to_lowercase_first(&self) -> (r: String)
        ensures
            r@ == lower_first(self@),
    {
        let cs = str_chars(self);
        if cs.len() == 0 {
            return String::new();
        }
        let mut r = char_lower_string(cs[0]);
        let rest = sub_chars(&cs, 1, cs.len());
        let rest_s = chars_to_string(&rest);
        r.append(rest_s.as_str());
        r
    }
}

} // verus!
