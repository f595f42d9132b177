//! What the library is for, stated of its calls.
//!
//! Each law says what a call, or a run of calls, comes to, in the numbers of
//! [`crate::model`]: `call_ensures(f, args, r)` reads "a call of `f` with `args` has
//! given `r`".

pub mod bytes;
pub mod commands;
pub mod console;
pub mod failures;
pub mod pumping;
pub mod registers;
pub mod rings;
pub mod rounds;
pub mod running;
pub mod search;
pub mod session;
pub mod sockets;
pub mod state;
pub mod texts;
pub mod transfers;
