//! A small cooperative futures runtime: pollable computations, combinators
//! that compose them, and executors that drive them to completion.


pub mod asyncio;
pub mod executor;
pub mod future;
pub mod session;
pub mod tcp;
pub mod usecount;
pub mod tree;
