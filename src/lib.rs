//! Thread table, round-robin scheduler, trap handling and syscall layer of a
//! small single-core kernel, written as pure logic over register frames.
//!
//! - `consts`: memory layout, table capacity, stack placement, modes
//! - `registers`: the trap frame
//! - `thread`: thread control blocks and the thread table
//! - `model`: the mathematical model of the table and its invariant
//! - `trap`: interrupt, fault and syscall handlers
//! - `laws`: properties of the table and the scheduler, proved over the model

pub mod consts;
pub mod registers;
pub mod model;
pub mod thread;
pub mod trap;
pub mod laws;
