//! The encoding-label lookups that `encoding_rs` performs for the sniffer. An encoding is
//! carried as its canonical `encoding_rs` name (`Encoding::name`), which names exactly one
//! encoding.
use vstd::prelude::*;

verus! {

/// The canonical name of the encoding that `encoding_rs::Encoding::for_label` returns for
/// `label` (the WHATWG "get an encoding" lookup), or `None` where it returns `None`.
pub uninterp spec fn encoding_for_label(label: Seq<u8>) -> Option<Seq<char>>;

/// Whether `name`, as a label, names the encoding called `name`: true of every encoding's
/// canonical name (the label table holds each name in lowercase, and the lookup is ASCII
/// case-insensitive).
pub open spec fn names_itself(name: Seq<char>) -> bool {
    encoding_for_label(vstd::utf8::encode_utf8(name)) == Some(name)
}

/// `encoding_rs::Encoding::for_label`, followed by `Encoding::name` on its result: the
/// WHATWG "get an encoding" lookup of `label` (trimmed of ASCII whitespace, ASCII
/// case-insensitive). The contract claims that the result is a function of `label`, named
/// [`encoding_for_label`], and that the name found is itself a label of its encoding;
/// which labels name which encodings is left to that table.
#[verifier::external_body]
pub(crate) fn encoding_name_for_label(label: &[u8]) -> (r: Option<String>)
    ensures
        match r {
            Some(name) => encoding_for_label(label@) == Some(name@),
            None => encoding_for_label(label@) is None,
        },
        r matches Some(name) ==> names_itself(name@),
{
    match encoding_rs::Encoding::for_label(label) {
        Some(encoding) => Some(encoding.name().to_string()),
        None => None,
    }
}

/// What `encoding_rs::Encoding::for_bom` returns for `bytes`: the UTF-8 BOM gives
/// (`UTF-8`, 3), the UTF-16LE BOM (`UTF-16LE`, 2), the UTF-16BE BOM (`UTF-16BE`, 2).
pub open spec fn bom_spec(bytes: Seq<u8>) -> Option<(Seq<char>, int)> {
    if bytes.len() >= 3 && bytes[0] == 0xEF && bytes[1] == 0xBB && bytes[2] == 0xBF {
        Some(("UTF-8"@, 3))
    } else if bytes.len() >= 2 && bytes[0] == 0xFF && bytes[1] == 0xFE {
        Some(("UTF-16LE"@, 2))
    } else if bytes.len() >= 2 && bytes[0] == 0xFE && bytes[1] == 0xFF {
        Some(("UTF-16BE"@, 2))
    } else {
        None
    }
}

/// `encoding_rs::Encoding::for_bom`, with the encoding given by its name: BOM sniffing of
/// the first bytes of `bytes`, exactly as [`bom_spec`] states it (the crate's source tests
/// the three BOMs in that order with `starts_with`); the name is a label of its encoding.
#[verifier::external_body]
pub(crate) fn encoding_for_bom(bytes: &[u8]) -> (r: Option<(String, usize)>)
    ensures
        match r {
            Some((name, len)) => bom_spec(bytes@) == Some((name@, len as int)),
            None => bom_spec(bytes@) is None,
        },
        r matches Some((name, _)) ==> names_itself(name@),
{
    match encoding_rs::Encoding::for_bom(bytes) {
        Some((encoding, len)) => Some((encoding.name().to_string(), len)),
        None => None,
    }
}

/// The name of `encoding_rs::UTF_8`: `UTF-8`, a label of that encoding.
#[verifier::external_body]
pub(crate) fn utf8_name() -> (r: String)
    ensures
        r@ == "UTF-8"@,
        names_itself(r@),
{
    encoding_rs::UTF_8.name().to_string()
}

/// The name of `encoding_rs::WINDOWS_1252`: `windows-1252`, a label of that encoding.
#[verifier::external_body]
pub(crate) fn windows_1252_name() -> (r: String)
    ensures
        r@ == "windows-1252"@,
        names_itself(r@),
{
    encoding_rs::WINDOWS_1252.name().to_string()
}

} // verus!

verus! {

/// The text that `encoding_rs` decodes `bytes` to with the encoding named `name`
/// (`Encoding::decode_with_bom_removal`: a matching BOM is stripped, malformed sequences
/// become U+FFFD).
pub uninterp spec fn decoded_text(name: Seq<char>, bytes: Seq<u8>) -> Seq<char>;

/// `Encoding::decode_with_bom_removal` on `bytes`, with the encoding that
/// `Encoding::for_label` finds for `name` (every encoding's name is one of its labels).
/// `None` exactly when `name` is no label. The contract claims only that the text is a
/// function of the name and the bytes, named [`decoded_text`].
#[verifier::external_body]
pub(crate) fn decode_with_bom_removal(name: &str, bytes: &[u8]) -> (r: Option<String>)
    ensures
        r is Some <==> encoding_for_label(vstd::utf8::encode_utf8(name@)) is Some,
        r matches Some(text) ==> text@ == decoded_text(name@, bytes@),
{
    match encoding_rs::Encoding::for_label(name.as_bytes()) {
        Some(encoding) => Some(encoding.decode_with_bom_removal(bytes).0.into_owned()),
        None => None,
    }
}

} // verus!
