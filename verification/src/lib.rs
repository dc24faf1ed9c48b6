//! The decisions behind a scaffolding tool for web projects, and above all
//! the compiler that keeps a generated TypeScript client in step with the
//! types and routes of a backend.
//!
//! A run goes through five phases, each a function of what the phase before
//! it gave:
//!
//! 1. [`scanner`] decides which of the files found under the input paths
//!    are sources, and in which order they are read;
//! 2. [`parser`], over the tokens of [`lexer`], collects the type and route
//!    declarations that follow a marker and skips everything else;
//! 3. [`resolver`] builds the symbol table and resolves the names in the
//!    types of its members; [`reach`] tells which types lead back to
//!    themselves;
//! 4. [`routes`] resolves the handlers against the table and orders them;
//! 5. [`emitter`] renders the table and the routes.
//!
//! [`pipeline`] runs the phases one after the other, and [`laws`] states
//! what holds of every run. The library reads and writes nothing: files come
//! in as values, and the text of the client goes out as one.
//!
//! [`project`] and [`session`] hold what the command line and the session
//! store decide before they prompt, write or query.

pub mod bytes;
pub mod emitter;
pub mod laws;
pub mod lexer;
pub mod model;
pub mod order;
pub mod parser;
pub mod pipeline;
pub mod project;
pub mod reach;
pub mod resolver;
pub mod routes;
pub mod scanner;
pub mod session;
