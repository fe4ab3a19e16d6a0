//! The middle and back end of a compiler for Snake, a small language of
//! 63-bit integers, booleans, arrays and first-class functions, to x86-64 in
//! NASM syntax.
//!
//! A program goes through the static checker, uniquification, closure
//! conversion, lambda lifting, sequentialization and instruction selection,
//! and comes out as text. Each pass is an executable function whose contract
//! says exactly which tree or which instructions it gives, over a view of the
//! trees as mathematical values. What holds of the results of the passes is
//! proved beside them: uniquification gives the program back up to the names
//! of its bound variables, binds no name twice, and is idempotent; after
//! lambda lifting the global functions have names of their own and are
//! closed; every operand is immediate after sequentialization, and a literal
//! or a variable that something binds, and sequentialization keeps the order
//! of evaluation; and all emitted code keeps the stack pointer aligned at
//! function entries.
//!
//! For programs without functions and arrays the crate also says what the
//! emitted code does: over a model of the machine, the code of the main
//! expression leaves the word of the program's value in `rax`, or jumps to
//! the trampoline of the error that the program makes.

pub mod text;
pub mod syntax;
pub mod x86;
pub mod table;
pub mod errors;
pub mod error_handler;
pub mod checker;
pub mod uniquify;
pub mod renaming;
pub mod alpha;
pub mod closure;
pub mod lift;
pub mod lambda_lift;
pub mod closed;
pub mod liftable;
pub mod global_names;
pub mod whole_groups;
pub mod complete_calls;
pub mod sequentializer;
pub mod normal_form;
pub mod select;
pub mod frames;
pub mod limits;
pub mod resolve;
pub mod compile;
pub mod runtime;
pub mod reach;
pub mod encoding;
pub mod machine;
pub mod labels;
pub mod meaning;
pub mod source;
pub mod sound_uniquify;
pub mod sound_lift;
pub mod sound_sequential;
pub mod sound;
pub mod bound_operands;
pub mod operand_scope;
