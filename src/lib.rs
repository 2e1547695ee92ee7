//! Time-expression front end for a video frame picker.
//!
//! A bound such as `end - 2s + 10f` is lexed into spanned atoms and
//! operators, folded into a canonical signed form, validated, and finally
//! resolved against a description of the video stream. `from` and `to`
//! bounds may refer to each other, but not both ways.
pub mod atom;
pub mod error;
pub mod lexer;
pub mod optimize;
pub mod check;
pub mod video;
pub mod bounds;
pub mod diagnostic;
