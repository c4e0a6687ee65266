//! The verified pieces of a flow kept between runs: `have[fi][pi]` written
//! as a JSON array of arrays of booleans.
use vstd::prelude::*;

verus! {

/// What `serde_json::from_str` reads from `text` as a `Vec<Vec<bool>>`, or
/// `None` where it refuses the text.
pub uninterp spec fn have_from_json(text: Seq<char>) -> Option<Seq<Seq<bool>>>;

/// A boolean as JSON.
pub open spec fn bool_json(b: bool) -> Seq<char> {
    if b {
        "true"@
    } else {
        "false"@
    }
}

/// The booleans of a row as JSON, separated by commas.
pub open spec fn bools_json(r: Seq<bool>) -> Seq<char>
    decreases r.len(),
{
    if r.len() == 0 {
        Seq::empty()
    } else if r.len() == 1 {
        bool_json(r[0])
    } else {
        bools_json(r.drop_last()) + ","@ + bool_json(r.last())
    }
}

/// A row as a JSON array.
pub open spec fn row_json(r: Seq<bool>) -> Seq<char> {
    "["@ + bools_json(r) + "]"@
}

/// The rows as JSON arrays, separated by commas.
pub open spec fn rows_json(have: Seq<Seq<bool>>) -> Seq<char>
    decreases have.len(),
{
    if have.len() == 0 {
        Seq::empty()
    } else if have.len() == 1 {
        row_json(have[0])
    } else {
        rows_json(have.drop_last()) + ","@ + row_json(have.last())
    }
}

/// The compact JSON of the rows `have`: an array of arrays of `true` and
/// `false`, with no spaces.
pub open spec fn have_to_json(have: Seq<Seq<bool>>) -> Seq<char> {
    "["@ + rows_json(have) + "]"@
}

/// The rows of a bitfield, each as a sequence.
pub open spec fn rows_view(rows: Seq<Vec<bool>>) -> Seq<Seq<bool>> {
    rows.map_values(|r: Vec<bool>| r@)
}

/// Why saved pieces could not be read.
#[derive(Debug, Clone, Copy, PartialEq, Eq, Structural)]
pub enum PersistError {
    /// The saved text is not a JSON array of arrays of booleans.
    Parse,
}

/// Calls `serde_json::from_str::<Vec<Vec<bool>>>`: the rows it reads from
/// `text`, or `None` where it returns an error.
#[verifier::external_body]
fn parse_have_json(text: &str) -> (res: Option<Vec<Vec<bool>>>)
    ensures
        match res {
            Some(v) => have_from_json(text@) == Some(rows_view(v@)),
            None => have_from_json(text@) is None,
        },
{
    serde_json::from_str::<Vec<Vec<bool>>>(text).ok()
}

/// Calls `serde_json::to_string` on the rows. For a slice of `Vec<bool>`
/// the compact serializer writes an array of arrays of `true` and `false`
/// separated by commas (see [`have_to_json`]) and has no failing case, so
/// the error arm is never taken; reading the text back with
/// `serde_json::from_str` gives the same rows.
#[verifier::external_body]
fn have_json(have: &[Vec<bool>]) -> (res: String)
    ensures
        res@ == have_to_json(rows_view(have@)),
        have_from_json(res@) == Some(rows_view(have@)),
{
    match serde_json::to_string(have) {
        Ok(s) => s,
        Err(_) => String::new(),
    }
}

/// The text saved for the verified pieces `have`; reading it back gives
/// the same pieces.
pub fn have_text(have: &[Vec<bool>]) -> (res: String)
    ensures
        res@ == have_to_json(rows_view(have@)),
        restored_have(Some(res@)) == Ok::<Option<Seq<Seq<bool>>>, PersistError>(Some(rows_view(have@))),
{
    have_json(have)
}

/// What [`restore_have`] answers for the saved text, `None` when nothing was
/// saved.
pub open spec fn restored_have(text: Option<Seq<char>>) -> Result<Option<Seq<Seq<bool>>>, PersistError> {
    match text {
        None => Ok(None),
        Some(t) => match have_from_json(t) {
            Some(v) => Ok(Some(v)),
            None => Err(PersistError::Parse),
        },
    }
}

/// The verified pieces read back from the saved text: `Ok(None)` when
/// nothing was saved, an error when the text is not a JSON array of arrays
/// of booleans, else the rows it holds.
pub fn restore_have(text: Option<&str>) -> (res: Result<Option<Vec<Vec<bool>>>, PersistError>)
    ensures
        match restored_have(
            match text {
                Some(t) => Some(t@),
                None => None,
            },
        ) {
            Ok(None) => res matches Ok(None),
            Ok(Some(v)) => res matches Ok(Some(h)) && rows_view(h@) == v,
            Err(e) => res == Err::<Option<Vec<Vec<bool>>>, PersistError>(e),
        },
{
    match text {
        None => Ok(None),
        Some(t) => match parse_have_json(t) {
            Some(v) => Ok(Some(v)),
            None => Err(PersistError::Parse),
        },
    }
}

} // verus!
