//! NBS (Note Block Studio) song data, note utilities and the translation
//! reuse analysis used to project songs into redstone structures.

pub mod error;
pub mod bytes;
pub mod types;
pub mod note;
pub mod notes;
pub mod song;
pub mod translate;
pub mod codec;
pub mod roundtrip;
pub mod layout;
pub mod compact;
pub mod linear;
pub mod util;
pub mod layering;
pub mod analysis;
pub mod reuse;
pub mod tec;
