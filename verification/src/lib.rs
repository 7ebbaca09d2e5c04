//! The rules of an interactive command shell, verified with Verus.
//!
//! The library decides and computes; it touches neither the terminal nor the
//! file system nor any process. A program around it reads the lines, opens
//! the files and forks the processes, and asks the library at every step
//! what to do.
//!
//! - [`lexer`] splits a line into words by the quoting rules.
//! - [`pipeline`] finds the pipe operators of a line and splits it at them.
//! - [`redirect`] parts the words of a command from its redirections.
//! - [`repl`] routes a line and steers the read loop.
//! - [`builtins`] says what a command asks for and what the built-ins write.
//! - [`path`] lists where a command is to be looked for.
//! - [`executor`] drives the construction of a pipeline of processes.
//! - [`completion`] answers the tab key.
//! - [`order`], [`number`] and [`text`] hold what the others share.

pub mod builtins;
pub mod completion;
pub mod executor;
pub mod lexer;
pub mod number;
pub mod order;
pub mod path;
pub mod pipeline;
pub mod redirect;
pub mod repl;
pub mod text;
