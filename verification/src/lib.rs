//! Message handling for a chat bot that listens to a `matrix-commander`
//! stream: parsing of the stream's frames, administrator commands, trigger
//! words and their answers, and the small reports the bot produces.
pub mod text;
pub mod matrix;
pub mod database;
pub mod pattern;
pub mod random;
pub mod message;
pub mod system;
pub mod answers;
pub mod search;
