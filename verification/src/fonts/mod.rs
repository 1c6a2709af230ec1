//! The bundled font database: the faces the engine may use, looked up by CSS family name.

pub mod db;
pub mod error;
