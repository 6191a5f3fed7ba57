//! User-provided hints to help deduce whether each pointer
//! points to an array or a single object.

use crate::style::stylesheet::RawPropertyKey;
use crate::text::debug_text;
use vstd::prelude::*;
use vstd::std_specs::convert::TryFromSpecImpl;

verus! {

/// Property key of a length hint sheet.
#[derive(Clone, Copy, PartialEq, Eq, Debug, Hash, Structural)]
pub enum PointerLengthHintKey {
    /// Indicates the length of an array pointed to by a pointer.
    Length,
}

/// Error returned when a key of a length hint sheet is not recognized.
#[derive(Clone, PartialEq, Eq, Debug)]
pub enum BadHintKey {
    /// Unrecognized key was passed.
    InvalidKey(String),
    /// Quoted key was passed; quoted keys cannot be used in length hint sheets.
    Quoted(String),
    /// Fragment key was passed; fragment keys cannot be used in length hint sheets.
    Fragment(String, String),
}

/// The hint key that a raw key names, or the reason it names none.
pub open spec fn hint_key_of(value: RawPropertyKey) -> Result<PointerLengthHintKey, BadHintKey> {
    match value {
        RawPropertyKey::Property(p) => if p@ == "length"@ {
            Ok(PointerLengthHintKey::Length)
        } else {
            Err(BadHintKey::InvalidKey(p))
        },
        RawPropertyKey::QuotedProperty(p) => Err(BadHintKey::Quoted(p)),
        RawPropertyKey::FragmentProperty(f, p) => Err(BadHintKey::Fragment(f, p)),
    }
}

impl TryFrom<RawPropertyKey> for PointerLengthHintKey {
    type Error = BadHintKey;

    fn try_from(value: RawPropertyKey) -> (r: Result<Self, Self::Error>) {
        match value {
            RawPropertyKey::Property(p) => {
                if crate::text::str_eq(p.as_str(), "length") {
                    Ok(PointerLengthHintKey::Length)
                } else {
                    Err(BadHintKey::InvalidKey(p))
                }
            },
            RawPropertyKey::QuotedProperty(p) => Err(BadHintKey::Quoted(p)),
            RawPropertyKey::FragmentProperty(f, p) => Err(BadHintKey::Fragment(f, p)),
        }
    }
}

impl TryFromSpecImpl<RawPropertyKey> for PointerLengthHintKey {
    open spec fn obeys_try_from_spec() -> bool {
        true
    }

    open spec fn try_from_spec(v: RawPropertyKey) -> Result<Self, Self::Error> {
        hint_key_of(v)
    }
}

impl BadHintKey {
    /// Text that describes the error; a quoted key is shown as `Debug`
    /// formatting writes a string.
    pub fn message(&self) -> (r: String)
        ensures
            self matches BadHintKey::InvalidKey(k) ==> r@ == "unrecognized key: "@ + k@,
            self matches BadHintKey::Quoted(k) ==> r@ == "quoted keys are not allowed: "@ + debug_text(k@),
            self matches BadHintKey::Fragment(f, p) ==> r@ == "fragment keys are not allowed: "@ + f@ + "/"@
                + debug_text(p@),
    {
        let mut out: Vec<char> = Vec::new();
        match self {
            BadHintKey::InvalidKey(k) => {
                crate::text::push_str(&mut out, "unrecognized key: ");
                crate::text::push_str(&mut out, k.as_str());
            },
            BadHintKey::Quoted(k) => {
                crate::text::push_str(&mut out, "quoted keys are not allowed: ");
                crate::text::push_str(&mut out, crate::text::debug_quoted(k.as_str()).as_str());
            },
            BadHintKey::Fragment(f, p) => {
                crate::text::push_str(&mut out, "fragment keys are not allowed: ");
                crate::text::push_str(&mut out, f.as_str());
                crate::text::push_str(&mut out, "/");
                crate::text::push_str(&mut out, crate::text::debug_quoted(p.as_str()).as_str());
            },
        }
        crate::text::string_from_chars(&out)
    }
}

} // verus!
