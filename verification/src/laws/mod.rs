//! What the operations are for, said in terms of what goes in and what comes out: of every
//! state and every input, in plain numbers, and without leaning on how an operation is
//! put together.

pub mod window;
pub mod pool;
pub mod near;
pub mod far;
pub mod messages;
pub mod socks;
pub mod texts;
pub mod settings;
pub mod values;
