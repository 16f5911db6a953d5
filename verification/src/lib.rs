//! Lending iterators, lending futures and lending asynchronous iterators: the
//! state machines that drive their adapters.

pub mod embassy_net;
pub mod eq_by;
pub mod lending_async_iterator;
pub mod lending_future;
pub mod lending_iterator;
pub mod unsafe_pinned;
pub mod poll;

pub use poll::Poll;
