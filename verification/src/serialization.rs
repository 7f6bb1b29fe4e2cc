//! Persistence-format selection.
//!
//! Models are persisted in one of a closed set of formats. The format name is
//! resolved here, at the boundary; an unrecognized name is rejected with the
//! offending value, never deep inside save or load logic.

use vstd::prelude::*;

verus! {

/// The closed set of persistence formats.
#[derive(Clone, Copy, Debug, PartialEq, Eq, Structural)]
pub enum SaveFormat {
    /// Human-readable text.
    Text,
    /// Compact binary.
    Binary,
}

/// An unrecognized persistence-format name.
#[derive(Debug, Clone)]
pub struct UnknownFormatError {
    /// The offending format name, as given.
    pub format: String,
}

impl UnknownFormatError {
    /// Wraps the offending format name.
    pub fn new(format: &str) -> (r: Self)
        ensures
            r.format@ == format@,
    {
        UnknownFormatError { format: format.to_owned() }
    }
}

/// Resolves a requested format name: `"text"` and `"binary"` are the valid
/// names, and an omitted name means `Text`. Anything else is rejected with
/// the offending value.
pub fn parse_format(name: Option<&str>) -> (r: Result<SaveFormat, UnknownFormatError>)
    ensures
        name is None ==> (r matches Ok(f) && f == SaveFormat::Text),
        (name matches Some(n) && n@ == "text"@) ==> (r matches Ok(f) && f == SaveFormat::Text),
        (name matches Some(n) && n@ == "binary"@) ==> (r matches Ok(f) && f == SaveFormat::Binary),
        (name matches Some(n) && n@ != "text"@ && n@ != "binary"@) ==> (r matches Err(e)
            && e.format@ == name->0@),
{
    proof {
        reveal_strlit("text");
        reveal_strlit("binary");
        assert("text"@.len() == 4);
        assert("binary"@.len() == 6);
    }
    match name {
        None => Ok(SaveFormat::Text),
        Some(n) => {
            let owned = n.to_owned();
            if owned.eq(&"text".to_owned()) {
                Ok(SaveFormat::Text)
            } else if owned.eq(&"binary".to_owned()) {
                Ok(SaveFormat::Binary)
            } else {
                Err(UnknownFormatError::new(n))
            }
        },
    }
}

} // verus!
