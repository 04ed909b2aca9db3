//! RPG Maker MV/MZ injector: writes translations back into a JSON document
//! at the JSON Pointer keys the extractor produced. Reading and printing
//! the JSON text is left to the caller.
use vstd::prelude::*;

use crate::json::{pairs_view, tree, write_all, write_strings, Json, PointerFault};

verus! {

/// Why an injection stopped.
#[derive(Debug)]
pub enum InjectorError {
    /// No value at the key.
    KeyNotFound(String),
    /// The value at the key is not a string.
    NotAString(String),
}

impl InjectorError {
    /// The error's text.
    pub fn message(&self) -> (m: String)
        ensures
            match self {
                InjectorError::KeyNotFound(k) => m@ == "key not found in JSON: "@ + k@,
                InjectorError::NotAString(k) => m@ == "target at key is not a string: "@ + k@,
            },
    {
        match self {
            InjectorError::KeyNotFound(k) => String::from_str("key not found in JSON: ").concat(k.as_str()),
            InjectorError::NotAString(k) => String::from_str("target at key is not a string: ").concat(k.as_str()),
        }
    }
}

/// Writes each `(json_pointer_key, translated_text)` pair into `json`, in
/// order, stopping at the first key that selects nothing (`KeyNotFound`) or
/// a value that is not a string (`NotAString`); the pairs before it stay
/// written (see `write_all`).
pub fn inject(json: &mut Json, translations: &[(&str, &str)]) -> (r: Result<(), InjectorError>)
    ensures
        tree(*final(json)) == write_all(tree(*old(json)), pairs_view(translations@)).0,
        match write_all(tree(*old(json)), pairs_view(translations@)).1 {
            None => r is Ok,
            Some((PointerFault::Missing, i)) => r matches Err(InjectorError::KeyNotFound(k)) && k@
                == translations@[i].0@,
            Some((PointerFault::NotString, i)) => r matches Err(InjectorError::NotAString(k)) && k@
                == translations@[i].0@,
        },
{
    match write_strings(json, translations) {
        Ok(()) => Ok(()),
        Err((PointerFault::Missing, i)) => Err(InjectorError::KeyNotFound(String::from_str(translations[i].0))),
        Err((PointerFault::NotString, i)) => Err(InjectorError::NotAString(String::from_str(translations[i].0))),
    }
}

} // verus!
