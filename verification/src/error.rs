//! Why a save file is refused.

use vstd::prelude::*;

verus! {

/// Why a save file could not be decoded.
#[derive(Debug, Clone, PartialEq)]
pub enum SaveError {
    /// The file was written by another version of the format.
    InvalidVersion,
    /// The payload does not have the checksum that the header states.
    ChecksumMismatch,
    /// The data ends before everything it announces.
    UnexpectedEof,
    /// The data is complete but makes no sense; the text says where.
    CorruptedData(String),
}

/// A [`SaveError`] with its text as a sequence of characters.
#[verifier::ext_equal]
pub enum SaveErrorView {
    InvalidVersion,
    ChecksumMismatch,
    UnexpectedEof,
    CorruptedData(Seq<char>),
}

impl View for SaveError {
    type V = SaveErrorView;

    open spec fn view(&self) -> SaveErrorView {
        match self {
            SaveError::InvalidVersion => SaveErrorView::InvalidVersion,
            SaveError::ChecksumMismatch => SaveErrorView::ChecksumMismatch,
            SaveError::UnexpectedEof => SaveErrorView::UnexpectedEof,
            SaveError::CorruptedData(text) => SaveErrorView::CorruptedData(text@),
        }
    }
}

/// The outcome of decoding a value of which the number of bytes taken is reported too.
pub open spec fn outcome<T: View>(result: Result<(T, usize), SaveError>) -> Result<
    (T::V, nat),
    SaveErrorView,
> {
    match result {
        Ok((value, taken)) => Ok((value@, taken as nat)),
        Err(error) => Err(error@),
    }
}

/// The outcome of decoding a value from the whole of the data.
pub open spec fn whole_outcome<T: View>(result: Result<T, SaveError>) -> Result<
    T::V,
    SaveErrorView,
> {
    match result {
        Ok(value) => Ok(value@),
        Err(error) => Err(error@),
    }
}

impl SaveErrorView {
    /// The sentence shown to a user.
    pub open spec fn message(self) -> Seq<char> {
        match self {
            SaveErrorView::InvalidVersion => "invalid save version"@,
            SaveErrorView::ChecksumMismatch => "checksum mismatch"@,
            SaveErrorView::UnexpectedEof => "unexpected end of data"@,
            SaveErrorView::CorruptedData(text) => "corrupted data: "@ + text,
        }
    }
}

impl SaveError {
    /// The sentence shown to a user.
    pub fn message(&self) -> (text: String)
        ensures
            text@ == self@.message(),
    {
        match self {
            SaveError::InvalidVersion => "invalid save version".to_string(),
            SaveError::ChecksumMismatch => "checksum mismatch".to_string(),
            SaveError::UnexpectedEof => "unexpected end of data".to_string(),
            SaveError::CorruptedData(text) => "corrupted data: ".to_string().concat(text.as_str()),
        }
    }
}

/// The view of an error is the error of the same name with the same text, and the outcome of
/// decoding is what was decoded or that view.
pub proof fn law_outcome_is_the_result<T: View>(
    error: SaveError,
    part: Result<(T, usize), SaveError>,
    whole: Result<T, SaveError>,
)
    ensures
        error is InvalidVersion <==> error@ is InvalidVersion,
        error is ChecksumMismatch <==> error@ is ChecksumMismatch,
        error is UnexpectedEof <==> error@ is UnexpectedEof,
        error is CorruptedData <==> error@ is CorruptedData,
        error matches SaveError::CorruptedData(text) ==> error@
            == SaveErrorView::CorruptedData(text@),
        part matches Ok((value, taken)) ==> (outcome(part) matches Ok((seen, size)) && seen
            == value@ && size == taken),
        part matches Err(error) ==> (outcome(part) matches Err(seen) && seen == error@),
        whole matches Ok(value) ==> (whole_outcome(whole) matches Ok(seen) && seen == value@),
        whole matches Err(error) ==> (whole_outcome(whole) matches Err(seen) && seen == error@),
{
}

/// Each error has a sentence of its own; the one for corrupted data ends with the text of the
/// error.
pub proof fn law_messages(text: Seq<char>)
    ensures
        SaveErrorView::InvalidVersion.message() == "invalid save version"@,
        SaveErrorView::ChecksumMismatch.message() == "checksum mismatch"@,
        SaveErrorView::UnexpectedEof.message() == "unexpected end of data"@,
        SaveErrorView::CorruptedData(text).message() == "corrupted data: "@ + text,
{
}

} // verus!
