use vstd::prelude::*;

verus! {

/// The text encoding a CSV file was read in.
#[derive(Debug, Clone, Copy, PartialEq, Eq, Structural)]
pub enum SourceEncoding {
    Utf8,
    ShiftJis,
}

impl SourceEncoding {
    /// The encoding's display name: `UTF-8` or `Shift_JIS`.
    pub fn to_string(&self) -> (name: String)
        ensures
            name@ == match self {
                SourceEncoding::Utf8 => "UTF-8"@,
                SourceEncoding::ShiftJis => "Shift_JIS"@,
            },
    {
        match self {
            SourceEncoding::Utf8 => String::from_str("UTF-8"),
            SourceEncoding::ShiftJis => String::from_str("Shift_JIS"),
        }
    }
}

} // verus!

verus! {

/// Text decoded from a CSV file's bytes, with the encoding it was read in.
pub struct DecodedText {
    pub text: String,
    pub encoding: SourceEncoding,
}

#[derive(Debug, Clone, PartialEq, Eq)]
pub enum DecodeError {
    /// The detector guessed an encoding other than Shift_JIS; its name is kept.
    UnsupportedEncoding(String),
    /// The bytes were taken for Shift_JIS but do not decode cleanly.
    InvalidShiftJis,
}

/// The name of the encoding that `chardetng` guesses for a whole byte stream
/// (no top-level domain, UTF-8 allowed).
pub uninterp spec fn detected_encoding(bytes: Seq<u8>) -> Seq<char>;

/// What `encoding_rs` gives when decoding bytes as Shift_JIS without BOM handling:
/// the text and whether malformed sequences were replaced.
pub uninterp spec fn shift_jis_decoding(bytes: Seq<u8>) -> (Seq<char>, bool);

/// `std::str::from_utf8`: the text when the bytes are valid UTF-8.
#[verifier::external_body]
fn utf8_text(bytes: &[u8]) -> (text: Option<String>)
    ensures
        match text {
            Some(text) => vstd::utf8::valid_utf8(bytes@) && text@ == vstd::utf8::decode_utf8(bytes@),
            None => !vstd::utf8::valid_utf8(bytes@),
        },
{
    std::str::from_utf8(bytes).ok().map(|text| text.to_owned())
}

/// `chardetng::EncodingDetector`: feeds all of `bytes` as the whole stream and returns
/// the name of `guess(None, true)`.
#[verifier::external_body]
fn detect_encoding(bytes: &[u8]) -> (name: String)
    ensures
        name@ == detected_encoding(bytes@),
{
    let mut detector = chardetng::EncodingDetector::new();
    detector.feed(bytes, true);
    detector.guess(None, true).name().to_owned()
}

/// `encoding_rs::SHIFT_JIS.decode_without_bom_handling`.
#[verifier::external_body]
fn decode_shift_jis(bytes: &[u8]) -> (decoded: (String, bool))
    requires
        bytes@.len() <= usize::MAX / 4,
    ensures
        (decoded.0@, decoded.1) == shift_jis_decoding(bytes@),
{
    let (text, had_errors) = encoding_rs::SHIFT_JIS.decode_without_bom_handling(bytes);
    (text.into_owned(), had_errors)
}

/// The bytes after a leading UTF-8 byte-order mark, if there is one.
pub open spec fn without_bom(bytes: Seq<u8>) -> Seq<u8> {
    if bytes.len() >= 3 && bytes[0] == 0xEF && bytes[1] == 0xBB && bytes[2] == 0xBF {
        bytes.subrange(3, bytes.len() as int)
    } else {
        bytes
    }
}

/// Decodes a CSV file's bytes: UTF-8 (ignoring a byte-order mark) when they are valid
/// UTF-8, else Shift_JIS when the detector guesses it and it decodes without errors.
pub fn decode_to_utf8(bytes: &[u8]) -> (result: Result<DecodedText, DecodeError>)
    requires
        bytes@.len() <= usize::MAX / 4,
    ensures
        vstd::utf8::valid_utf8(without_bom(bytes@)) ==> (result matches Ok(decoded) && decoded.encoding
            == SourceEncoding::Utf8 && decoded.text@ == vstd::utf8::decode_utf8(without_bom(bytes@))),
        !vstd::utf8::valid_utf8(without_bom(bytes@)) ==> match result {
            Ok(decoded) => detected_encoding(bytes@) == "Shift_JIS"@ && !shift_jis_decoding(bytes@).1
                && decoded.encoding == SourceEncoding::ShiftJis && decoded.text@ == shift_jis_decoding(
                bytes@,
            ).0,
            Err(DecodeError::UnsupportedEncoding(name)) => detected_encoding(bytes@) != "Shift_JIS"@
                && name@ == detected_encoding(bytes@),
            Err(DecodeError::InvalidShiftJis) => detected_encoding(bytes@) == "Shift_JIS"@
                && shift_jis_decoding(bytes@).1,
        },
{
    let has_bom = bytes.len() >= 3 && bytes[0] == 0xEF && bytes[1] == 0xBB && bytes[2] == 0xBF;
    let mut candidate: Vec<u8> = Vec::new();
    let mut index: usize = if has_bom { 3 } else { 0 };
    let start = index;
    while index < bytes.len()
        invariant
            start <= index <= bytes@.len(),
            candidate@ == bytes@.subrange(start as int, index as int),
        decreases bytes@.len() - index,
    {
        candidate.push(bytes[index]);
        index += 1;
        assert(candidate@ =~= bytes@.subrange(start as int, index as int));
    }
    assert(candidate@ =~= without_bom(bytes@));
    if let Some(text) = utf8_text(candidate.as_slice()) {
        return Ok(DecodedText { text, encoding: SourceEncoding::Utf8 });
    }
    let name = detect_encoding(bytes);
    let expected = String::from_str("Shift_JIS");
    proof {
        reveal_strlit("Shift_JIS");
    }
    if !(name == expected) {
        return Err(DecodeError::UnsupportedEncoding(name));
    }
    let (text, had_errors) = decode_shift_jis(bytes);
    if had_errors {
        return Err(DecodeError::InvalidShiftJis);
    }
    Ok(DecodedText { text, encoding: SourceEncoding::ShiftJis })
}

} // verus!
