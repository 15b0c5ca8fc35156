//! Tools for the Beatnik language: tokenizers for prose and for the
//! wottasquare notation, the Scrabble-style score function, the stack
//! machine that scores drive, and a Markov synthesizer that renders a score
//! sequence back into English-looking text.

pub mod chars;
pub mod codec;
pub mod machine;
pub mod markov;
pub mod score;
pub mod tokens;
pub mod words;
