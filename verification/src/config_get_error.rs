//! Errors met while reading a value out of a parsed document.
use vstd::prelude::*;
use crate::text::{nat_text, push_usize_text};

verus! {

#[derive(Debug, PartialEq)]
pub enum ConfigGetError {
    MissingKey { key: String },
    TypeMismatch { path: String, expected: String, found: String },
    IndexOutOfBounds { path: String, index: usize, len: usize },
}

/// Mathematical model of a [`ConfigGetError`].
pub enum ConfigGetErrorV {
    MissingKey { key: Seq<char> },
    TypeMismatch { path: Seq<char>, expected: Seq<char>, found: Seq<char> },
    IndexOutOfBounds { path: Seq<char>, index: nat, len: nat },
}

impl View for ConfigGetError {
    type V = ConfigGetErrorV;

    open spec fn view(&self) -> ConfigGetErrorV {
        match self {
            ConfigGetError::MissingKey { key } => ConfigGetErrorV::MissingKey { key: key@ },
            ConfigGetError::TypeMismatch { path, expected, found } => ConfigGetErrorV::TypeMismatch {
                path: path@,
                expected: expected@,
                found: found@,
            },
            ConfigGetError::IndexOutOfBounds { path, index, len } =>
                ConfigGetErrorV::IndexOutOfBounds {
                    path: path@,
                    index: *index as nat,
                    len: *len as nat,
                },
        }
    }
}

/// The message of an error.
pub open spec fn get_error_message(e: ConfigGetErrorV) -> Seq<char> {
    match e {
        ConfigGetErrorV::MissingKey { key } => "required key '"@ + key + "' is missing"@,
        ConfigGetErrorV::TypeMismatch { path, expected, found } => "key '"@ + path + "' expected a "@
            + expected + ", but found a "@ + found,
        ConfigGetErrorV::IndexOutOfBounds { path, index, len } => "index "@ + nat_text(index)
            + " is out of bounds for '"@ + path + "' of length "@ + nat_text(len),
    }
}

impl ConfigGetError {
    /// The message of the error.
    pub fn message(&self) -> (r: String)
        ensures
            r@ == get_error_message(self@),
    {
        let mut s = String::new();
        match self {
            ConfigGetError::MissingKey { key } => {
                s.append("required key '");
                s.append(key.as_str());
                s.append("' is missing");
            },
            ConfigGetError::TypeMismatch { path, expected, found } => {
                s.append("key '");
                s.append(path.as_str());
                s.append("' expected a ");
                s.append(expected.as_str());
                s.append(", but found a ");
                s.append(found.as_str());
            },
            ConfigGetError::IndexOutOfBounds { path, index, len } => {
                s.append("index ");
                push_usize_text(&mut s, *index);
                s.append(" is out of bounds for '");
                s.append(path.as_str());
                s.append("' of length ");
                push_usize_text(&mut s, *len);
            },
        }
        proof {
            assert(s@ =~= get_error_message(self@));
        }
        s
    }
}

/// `Err: ` followed by the message of the error.
pub fn format_error(err: &ConfigGetError) -> (r: String)
    ensures
        r@ == "Err: "@ + get_error_message(err@),
{
    let mut s = String::from_str("Err: ");
    let m = err.message();
    s.append(m.as_str());
    s
}

} // verus!
