//! Terminal plotting: a braille pixel canvas, ANSI colors, command-line
//! parsing, and the text-level parts of the data readers and chart layout.
pub mod canvas;
pub mod cli;
pub mod color;
pub mod data;
pub mod hist;
pub mod plot;
pub mod text;
