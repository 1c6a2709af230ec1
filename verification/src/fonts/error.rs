//! Failure modes of building the font database.
use vstd::prelude::*;

use crate::layout::dump::{decimal, push_decimal};
use crate::strutil::{debug_plain, debug_str, push_str};

verus! {

/// Why registering a bundled font asset failed.
#[derive(Debug, Clone)]
pub enum FontError {
    /// The asset registered no font faces at all.
    NoFacesRegistered {
        /// The asset's expected family name.
        name: String,
    },
    /// The asset's faces registered under more than one family.
    UnexpectedFamilyCount {
        /// The asset's expected family name.
        name: String,
        /// How many distinct families were registered.
        count: usize,
    },
    /// The asset registered under a family name other than the expected one.
    UnexpectedFamilyName {
        /// The family name that was expected.
        expected: String,
        /// The family name that was actually registered.
        actual: String,
    },
}

/// The message of a [`FontError`].
pub open spec fn font_error_message(e: FontError) -> Seq<char> {
    match e {
        FontError::NoFacesRegistered { name } => "bundled font `"@ + name@ + "` registered zero font faces"@,
        FontError::UnexpectedFamilyCount { name, count } => "bundled font `"@ + name@ + "` registered "@
            + decimal(count as nat) + " distinct families, expected exactly 1"@,
        FontError::UnexpectedFamilyName { expected, actual } => "bundled font `"@ + expected@
            + "` registered under unexpected family name "@ + seq!['"'] + actual@ + seq!['"'],
    }
}

impl FontError {
    /// A human-readable description of the failure. The unexpected family name is printed
    /// in `Debug` form; the contract covers names that need no escaping.
    pub fn message(&self) -> (r: String)
        ensures
            (self matches FontError::UnexpectedFamilyName { actual, .. } ==> debug_plain(actual@))
                ==> r@ == font_error_message(*self),
    {
        let mut s = "bundled font `".to_owned();
        match self {
            FontError::NoFacesRegistered { name } => {
                push_str(&mut s, name.as_str());
                push_str(&mut s, "` registered zero font faces");
            },
            FontError::UnexpectedFamilyCount { name, count } => {
                push_str(&mut s, name.as_str());
                push_str(&mut s, "` registered ");
                push_decimal(&mut s, *count as u64);
                push_str(&mut s, " distinct families, expected exactly 1");
            },
            FontError::UnexpectedFamilyName { expected, actual } => {
                push_str(&mut s, expected.as_str());
                push_str(&mut s, "` registered under unexpected family name ");
                let quoted = debug_str(actual.as_str());
                push_str(&mut s, quoted.as_str());
            },
        }
        s
    }
}

} // verus!
