use vstd::prelude::*;
use jomini::json::{DuplicateKeyMode as D, JsonOptions, TypeNarrowing as N};

verus! {

/// How repeated keys of an object are written in JSON.
#[derive(Clone, Copy, Debug, PartialEq, Eq, Structural)]
pub enum DuplicateKeys {
    /// One member holding an array of the values.
    Group,
    /// One member per occurrence, in the order met.
    Preserve,
    /// An ordered list of two-element `[key, value]` arrays.
    KeyValuePairs,
}

/// Which scalars are read as numbers or booleans rather than strings.
#[derive(Clone, Copy, Debug, PartialEq, Eq, Structural)]
pub enum TypeNarrowing {
    /// Quoted and unquoted scalars.
    All,
    /// Unquoted scalars only.
    Unquoted,
    /// No scalar: all stay strings.
    Disabled,
}

/// The settings of one conversion, with the caller's omissions filled in.
#[derive(Clone, Copy, Debug, PartialEq, Eq, Structural)]
pub struct JsonSettings {
    pub duplicate_keys: DuplicateKeys,
    pub prettyprint: bool,
    pub type_narrowing: TypeNarrowing,
}

/// The text given is not a well-formed tape.
#[derive(Clone, Copy, Debug, PartialEq, Eq, Structural)]
pub enum TapeError {
    Parse,
}

#[verifier::external_type_specification]
#[verifier::external_body]
pub struct ExJominiError(jomini::Error);

/// The text is a well-formed tape document.
pub uninterp spec fn tape_parses(text: Seq<char>) -> bool;

/// The JSON text of a well-formed tape document under the given settings.
pub uninterp spec fn tape_json(
    text: Seq<char>,
    duplicate_keys: DuplicateKeys,
    prettyprint: bool,
    type_narrowing: TypeNarrowing,
) -> Seq<char>;

/// Relies on `jomini::TextTape::from_slice`, which parses the text and
/// succeeds or fails on the text alone, and on the JSON builder of its UTF-8
/// reader (`json().with_options(..).to_string()`), which renders it from the
/// text and the options alone.
#[verifier::external_body]
fn tape_to_json(s: &str, settings: JsonSettings) -> (r: Result<String, jomini::Error>)
    ensures
        r is Ok <==> tape_parses(s@),
        r matches Ok(j) ==> j@ == tape_json(
            s@,
            settings.duplicate_keys,
            settings.prettyprint,
            settings.type_narrowing,
        ),
{
    let tape = jomini::TextTape::from_slice(s.as_bytes())?;
    let dk = match settings.duplicate_keys {
        DuplicateKeys::Group => D::Group,
        DuplicateKeys::Preserve => D::Preserve,
        DuplicateKeys::KeyValuePairs => D::KeyValuePairs,
    };
    let tn = match settings.type_narrowing {
        TypeNarrowing::All => N::All,
        TypeNarrowing::Unquoted => N::Unquoted,
        TypeNarrowing::Disabled => N::None,
    };
    let options = JsonOptions::new().with_prettyprint(settings.prettyprint).with_duplicate_keys(dk).with_type_narrowing(tn);
    Ok(tape.utf8_reader().json().with_options(options).to_string())
}

/// Fills in what the caller left out: repeated keys preserved, pretty
/// printing on, all scalars narrowed.
pub fn resolve_settings(
    duplicate_keys: Option<DuplicateKeys>,
    prettyprint: Option<bool>,
    type_narrowing: Option<TypeNarrowing>,
) -> (r: JsonSettings)
    ensures
        r == resolve_settings_spec(duplicate_keys, prettyprint, type_narrowing),
{
    JsonSettings {
        duplicate_keys: match duplicate_keys {
            Some(d) => d,
            Option::None => DuplicateKeys::Preserve,
        },
        prettyprint: match prettyprint {
            Some(p) => p,
            Option::None => true,
        },
        type_narrowing: match type_narrowing {
            Some(t) => t,
            Option::None => TypeNarrowing::All,
        },
    }
}

/// Converts a tape document to JSON text.
pub fn parse_jomini(
    s: &str,
    duplicate_keys: Option<DuplicateKeys>,
    prettyprint: Option<bool>,
    type_narrowing: Option<TypeNarrowing>,
) -> (r: Result<String, TapeError>)
    ensures
        ({
            let o = resolve_settings_spec(duplicate_keys, prettyprint, type_narrowing);
            let j = tape_json(s@, o.duplicate_keys, o.prettyprint, o.type_narrowing);
            &&& (r is Ok <==> tape_parses(s@))
            &&& (r matches Ok(out) ==> out@ == j)
            &&& (r matches Err(e) ==> e == TapeError::Parse)
        }),
{
    let settings = resolve_settings(duplicate_keys, prettyprint, type_narrowing);
    match tape_to_json(s, settings) {
        Ok(j) => Ok(j),
        Err(_) => Err(TapeError::Parse),
    }
}

/// The settings that `resolve_settings` returns.
pub open spec fn resolve_settings_spec(
    duplicate_keys: Option<DuplicateKeys>,
    prettyprint: Option<bool>,
    type_narrowing: Option<TypeNarrowing>,
) -> JsonSettings {
    JsonSettings {
        duplicate_keys: match duplicate_keys {
            Some(d) => d,
            Option::None => DuplicateKeys::Preserve,
        },
        prettyprint: match prettyprint {
            Some(p) => p,
            Option::None => true,
        },
        type_narrowing: match type_narrowing {
            Some(t) => t,
            Option::None => TypeNarrowing::All,
        },
    }
}

} // verus!
