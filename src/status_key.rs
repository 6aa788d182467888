//! How the status table's key column is chosen in the editor.
use vstd::prelude::*;
use vstd::string::StringExecFns;

verus! {

/// The choice of the status table's key column.
#[derive(Debug, Clone)]
pub enum StatusKeyMode {
    /// Let the loader pick it, starting from `CharacterUnique`.
    Auto,
    /// The `Unique` column.
    Unique,
    /// The `CharacterUnique` column.
    CharacterUnique,
    /// A column named by the user.
    Custom(String),
}

impl StatusKeyMode {
    /// The key hint this choice hands to the loader.
    pub fn as_hint(&self) -> (r: &str)
        ensures
            r@ == match self {
                StatusKeyMode::Auto => "CharacterUnique"@,
                StatusKeyMode::Unique => "Unique"@,
                StatusKeyMode::CharacterUnique => "CharacterUnique"@,
                StatusKeyMode::Custom(s) => s@,
            },
    {
        match self {
            StatusKeyMode::Auto => "CharacterUnique",
            StatusKeyMode::Unique => "Unique",
            StatusKeyMode::CharacterUnique => "CharacterUnique",
            StatusKeyMode::Custom(s) => s.as_str(),
        }
    }

    /// The text shown for this choice.
    pub fn label(&self) -> (r: String)
        ensures
            r@ == match self {
                StatusKeyMode::Auto => "Auto (alias-like)"@,
                StatusKeyMode::Unique => "Unique"@,
                StatusKeyMode::CharacterUnique => "CharacterUnique"@,
                StatusKeyMode::Custom(s) => "Custom: "@ + s@,
            },
    {
        match self {
            StatusKeyMode::Auto => "Auto (alias-like)".to_owned(),
            StatusKeyMode::Unique => "Unique".to_owned(),
            StatusKeyMode::CharacterUnique => "CharacterUnique".to_owned(),
            StatusKeyMode::Custom(s) => {
                let mut r = "Custom: ".to_owned();
                r.append(s.as_str());
                r
            },
        }
    }
}

} // verus!
