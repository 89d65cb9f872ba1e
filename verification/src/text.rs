//! Length-prefixed UTF-8 strings, and the texts of errors about them.

use vstd::prelude::*;
use vstd::slice::slice_to_vec;

use crate::error::SaveError;
use crate::frame;

verus! {

/// A string in a save file: its UTF-8 form in a frame.
pub open spec fn text_bytes(text: Seq<char>) -> Seq<u8> {
    frame::frame_bytes(vstd::utf8::encode_utf8(text))
}

/// The sentence in which the standard library says what is wrong with `data` as UTF-8.
pub uninterp spec fn utf8_error_text(data: Seq<u8>) -> Seq<char>;

/// What the length-prefixed string at the start of `data` is, and how many bytes it takes.
/// `label` introduces the text of the error for bytes that are not UTF-8.
pub open spec fn parse_text(data: Seq<u8>, label: Seq<char>) -> Result<
    (Seq<char>, nat),
    crate::error::SaveErrorView,
> {
    match frame::parse_frame(data) {
        None => Err(crate::error::SaveErrorView::UnexpectedEof),
        Some(utf8) => if vstd::utf8::valid_utf8(utf8) {
            Ok((vstd::utf8::decode_utf8(utf8), 4 + utf8.len()))
        } else {
            Err(crate::error::SaveErrorView::CorruptedData(label + utf8_error_text(utf8)))
        },
    }
}

/// Calls `String::from_utf8`: the string that the bytes are the UTF-8 form of, if they are one,
/// and otherwise the error's own sentence, which depends on the bytes alone.
#[verifier::external_body]
fn string_from_utf8(data: Vec<u8>) -> (result: Result<String, String>)
    ensures
        match result {
            Ok(text) => vstd::utf8::valid_utf8(data@) && text@ == vstd::utf8::decode_utf8(data@),
            Err(text) => !vstd::utf8::valid_utf8(data@) && text@ == utf8_error_text(data@),
        },
{
    match String::from_utf8(data) {
        Ok(text) => Ok(text),
        Err(error) => Err(error.to_string()),
    }
}

/// The digit of a number below ten.
pub open spec fn digit(n: nat) -> char {
    "0123456789"@[n as int]
}

/// A number in decimal.
pub open spec fn decimal(n: nat) -> Seq<char>
    decreases n,
{
    if n < 10 {
        seq![digit(n)]
    } else {
        decimal(n / 10).push(digit(n % 10))
    }
}

/// Appends `n` in decimal.
pub fn push_decimal(out: &mut String, n: usize)
    ensures
        final(out)@ == old(out)@ + decimal(n as nat),
    decreases n,
{
    let ghost before = out@;
    if n >= 10 {
        push_decimal(out, n / 10);
    }
    proof {
        reveal_strlit("0123456789");
    }
    let last = "0123456789".substring_ascii(n % 10, n % 10 + 1);
    out.append(last);
    assert(out@ =~= before + decimal(n as nat));
}

/// Appends `text` as a length-prefixed string.
pub fn push_text(out: &mut Vec<u8>, text: &str)
    ensures
        final(out)@ == old(out)@ + text_bytes(text@),
{
    frame::push_frame(out, text.as_bytes());
}

/// What decoding a string that takes `taken` bytes comes to, given the string or the complaint
/// about its bytes.
pub fn text_outcome(parsed: Result<String, String>, taken: usize, label: &str) -> (result: Result<
    (String, usize),
    SaveError,
>)
    ensures
        crate::error::outcome(result) == (match parsed {
            Ok(text) => Ok((text@, taken as nat)),
            Err(complaint) => Err(
                crate::error::SaveErrorView::CorruptedData(label@ + complaint@),
            ),
        }),
{
    match parsed {
        Ok(text) => Ok((text, taken)),
        Err(complaint) => Err(
            SaveError::CorruptedData(label.to_string().concat(complaint.as_str())),
        ),
    }
}

/// Reads the length-prefixed string at offset `at`; also returns how many bytes it takes.
pub fn read_text(data: &[u8], at: usize, label: &str) -> (result: Result<
    (String, usize),
    SaveError,
>)
    requires
        at <= data.len(),
    ensures
        crate::error::outcome(result) == parse_text(data@.skip(at as int), label@),
        result matches Ok((_, taken)) ==> at + taken <= data.len(),
{
    match frame::read_frame(data, at) {
        None => Err(SaveError::UnexpectedEof),
        Some(utf8) => text_outcome(string_from_utf8(slice_to_vec(utf8)), 4 + utf8.len(), label),
    }
}

/// A string whose UTF-8 form has a length that fits in four bytes is read back as it was written,
/// whatever follows it.
pub proof fn lemma_text_is_read_back(text: Seq<char>, rest: Seq<u8>, label: Seq<char>)
    requires
        vstd::utf8::encode_utf8(text).len() <= u32::MAX,
    ensures
        parse_text(text_bytes(text) + rest, label) == Ok::<_, crate::error::SaveErrorView>(
            (text, text_bytes(text).len()),
        ),
{
    frame::lemma_frame_is_read_back(vstd::utf8::encode_utf8(text), rest);
    vstd::utf8::encode_utf8_valid_utf8(text);
    vstd::utf8::encode_utf8_decode_utf8(text);
}

/// The bytes that a string was read from are the bytes that it is written as.
pub proof fn lemma_read_text_is_written_back(data: Seq<u8>, label: Seq<char>)
    ensures
        parse_text(data, label) matches Ok((text, taken)) ==> {
            &&& 4 <= taken <= data.len()
            &&& text_bytes(text) == data.take(taken as int)
            &&& vstd::utf8::encode_utf8(text).len() <= u32::MAX
        },
{
    if parse_text(data, label) is Ok {
        frame::lemma_read_frame_is_written_back(data);
        vstd::utf8::decode_utf8_encode_utf8(frame::parse_frame(data)->0);
    }
}

/// A string that was cut short ends early.
pub proof fn lemma_cut_text(text: Seq<char>, len: int, label: Seq<char>)
    requires
        vstd::utf8::encode_utf8(text).len() <= u32::MAX,
        0 <= len < text_bytes(text).len(),
    ensures
        parse_text(text_bytes(text).take(len), label) == Err::<(Seq<char>, nat), _>(
            crate::error::SaveErrorView::UnexpectedEof,
        ),
{
    frame::lemma_cut_frame(vstd::utf8::encode_utf8(text), len);
}

/// A string is written as the four bytes of the length of its UTF-8 form, then that form.
pub proof fn law_text_layout(text: Seq<char>)
    ensures
        ({
            let utf8 = vstd::utf8::encode_utf8(text);
            &&& text_bytes(text).len() == 4 + utf8.len()
            &&& text_bytes(text).take(4) == crate::bytes::le_bytes(utf8.len(), 4)
            &&& text_bytes(text).skip(4) == utf8
        }),
{
    frame::law_frame_layout(vstd::utf8::encode_utf8(text));
}

/// A string is read if its bytes are all there and are UTF-8. Bytes that are missing and bytes that
/// are not UTF-8 are told apart.
pub proof fn law_text_is_read(data: Seq<u8>, label: Seq<char>)
    ensures
        data.len() < 4 ==> parse_text(data, label) == Err::<(Seq<char>, nat), _>(
            crate::error::SaveErrorView::UnexpectedEof,
        ),
        data.len() >= 4 ==> {
            let len = data[0] + 0x100 * data[1] + 0x1_0000 * data[2] + 0x100_0000 * data[3];
            let utf8 = data.skip(4).take(len);
            &&& data.len() < 4 + len ==> parse_text(data, label) == Err::<(Seq<char>, nat), _>(
                crate::error::SaveErrorView::UnexpectedEof,
            )
            &&& data.len() >= 4 + len && vstd::utf8::valid_utf8(utf8) ==> (parse_text(
                data,
                label,
            ) matches Ok((text, taken)) && vstd::utf8::encode_utf8(text) == utf8 && taken == 4
                + len)
            &&& data.len() >= 4 + len && !vstd::utf8::valid_utf8(utf8) ==> parse_text(data, label)
                == Err::<(Seq<char>, nat), _>(
                crate::error::SaveErrorView::CorruptedData(label + utf8_error_text(utf8)),
            )
        },
{
    frame::law_frame_is_read(data);
    if let Some(utf8) = frame::parse_frame(data) {
        if vstd::utf8::valid_utf8(utf8) {
            vstd::utf8::decode_utf8_encode_utf8(utf8);
        }
    }
}

/// The decimal form of a number ends with the digit for its units, after the decimal form of its
/// tens if there are any.
pub proof fn law_decimal_digits(n: nat)
    ensures
        decimal(n).len() > 0,
        decimal(n).last() as int == '0' as int + n % 10,
        n < 10 ==> decimal(n).len() == 1,
        n >= 10 ==> decimal(n).drop_last() == decimal(n / 10),
{
    reveal_strlit("0123456789");
    if n >= 10 {
        assert(decimal(n).drop_last() =~= decimal(n / 10));
    }
}

} // verus!
