//! Determining a document's character encoding (WHATWG HTML, "determining the character
//! encoding"): BOM sniffing, then the transport layer's label, then the `<meta>` prescan,
//! then a UTF-8 default. An encoding is carried as its canonical `encoding_rs` name.
use vstd::prelude::*;

use crate::html::label::{bom_spec, decoded_text, encoding_for_bom, encoding_for_label, encoding_name_for_label, decode_with_bom_removal, names_itself, utf8_name};
use crate::html::prescan::{prescan_meta_charset, prescan_spec};

verus! {

/// Which stage of [`sniff_encoding`] produced its result, in precedence order.
#[derive(Debug, Clone, Copy, PartialEq, Eq, Structural)]
pub enum EncodingSource {
    /// A byte-order mark at the start of the bytes decided the encoding.
    Bom,
    /// The transport layer's label (e.g. an HTTP `charset` parameter) decided it.
    TransportLabel,
    /// A `<meta>` declaration within the first 1024 bytes decided it.
    MetaPrescan,
    /// Nothing decided it, so UTF-8 was used (a deliberate deviation from the spec's
    /// locale-dependent default).
    Default,
}

/// The encoding a label names, if the label is given and names one.
pub open spec fn transport_encoding(label: Option<Seq<u8>>) -> Option<Seq<char>> {
    match label {
        Some(l) => encoding_for_label(l),
        None => None,
    }
}

/// The sniffer's decision: the BOM wins over the transport label, which wins over the
/// prescan, which wins over the UTF-8 default.
pub open spec fn sniff_spec(bytes: Seq<u8>, label: Option<Seq<u8>>) -> (Seq<char>, EncodingSource) {
    if let Some((name, _)) = bom_spec(bytes) {
        (name, EncodingSource::Bom)
    } else if transport_encoding(label) is Some {
        (transport_encoding(label)->0, EncodingSource::TransportLabel)
    } else if prescan_spec(bytes) is Some {
        (prescan_spec(bytes)->0, EncodingSource::MetaPrescan)
    } else {
        ("UTF-8"@, EncodingSource::Default)
    }
}

/// The bytes of an optional label.
pub open spec fn label_bytes(label: Option<&str>) -> Option<Seq<u8>> {
    match label {
        Some(l) => Some(vstd::utf8::encode_utf8(l@)),
        None => None,
    }
}

/// Determines which encoding (by canonical name) to decode `bytes`, an HTML document's raw
/// bytes, with, and which stage decided it.
pub fn sniff_encoding(bytes: &[u8], transport_label: Option<&str>) -> (r: (String, EncodingSource))
    ensures
        (r.0@, r.1) == sniff_spec(bytes@, label_bytes(transport_label)),
        names_itself(r.0@),
{
    if let Some((encoding, _bom_len)) = encoding_for_bom(bytes) {
        return (encoding, EncodingSource::Bom);
    }
    if let Some(label) = transport_label {
        if let Some(encoding) = encoding_name_for_label(label.as_bytes()) {
            return (encoding, EncodingSource::TransportLabel);
        }
    }
    if let Some(encoding) = prescan_meta_charset(bytes) {
        return (encoding, EncodingSource::MetaPrescan);
    }
    (utf8_name(), EncodingSource::Default)
}

/// Sniffs `bytes`' encoding and decodes them to text in one step: a BOM that matches the
/// sniffed encoding is stripped, malformed sequences become U+FFFD. The text is the
/// decoding of `bytes` with the sniffed encoding.
pub fn decode(bytes: &[u8], transport_label: Option<&str>) -> (r: (String, String, EncodingSource))
    ensures
        (r.1@, r.2) == sniff_spec(bytes@, label_bytes(transport_label)),
        r.0@ == decoded_text(r.1@, bytes@),
{
    let (encoding, source) = sniff_encoding(bytes, transport_label);
    let text = match decode_with_bom_removal(encoding.as_str(), bytes) {
        Some(t) => t,
        // Unreachable: every name the sniffer returns is a label of its own encoding.
        None => String::new(),
    };
    (text, encoding, source)
}

} // verus!
