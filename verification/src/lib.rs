//! ChromeLight engine core: the arena DOM, the HTML encoding prescan, CSS whitespace
//! processing, block and inline layout, CPU raster arithmetic, font lookup and IPC validation,
//! each with its behaviour stated as a contract and proved.
#![allow(unused_imports)]

pub mod dom;
pub mod fonts;
pub mod gfx;
pub mod html;
pub mod ipc;
pub mod layout;
pub mod strutil;
