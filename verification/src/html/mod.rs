//! HTML byte-stream handling: encoding sniffing, the encoding-label lookups and the
//! `<meta>` prescan.

pub mod encoding;
pub mod label;
pub mod prescan;
pub mod sink;
