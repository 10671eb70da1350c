//! The generator side: prompts, the chat messages sent to a generator, and
//! the token usage it reports.
use vstd::prelude::*;

pub mod http;
pub mod openai;
pub mod prompt;

use crate::request::prompt::Prompt;

verus! {

/// A generated candidate program.
pub struct Program {
    pub id: usize,
    pub statements: String,
}

/// Why a generation request failed.
pub enum GenerateError {
    /// The generator could not be reached or answered with an error.
    Request(String),
    /// The generator's answer could not be read.
    Response(String),
}

/// A program generator: turns a prompt into candidate programs.
pub trait Handler {
    /// Generates programs for the prompt.
    fn generate(&self, prompt: &Prompt) -> Result<Vec<Program>, GenerateError>;

    /// Generates a single program (used for the planning phase of
    /// chain-of-thought generation).
    fn generate_single(&self, prompt: &Prompt) -> Result<Program, GenerateError>;
}

} // verus!
