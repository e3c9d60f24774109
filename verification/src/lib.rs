//! A verified coordination kernel for a multi-stage kitchen workflow.
//!
//! One coordinator (the head chef) walks an ordered recipe and delegates
//! each step to a specialized worker (prep chef, cook chef) over named
//! publish/subscribe channels, using a three-phase handshake per step:
//! command, acknowledgment, completion.  The state machines of the
//! coordinator and of both workers live here as verified transition
//! functions; the transport and all other I/O stay outside and drive the
//! machines by handing them events and performing the actions they request.

pub mod state;
pub mod steps;
pub mod msgs;
pub mod topics;
pub mod io;
pub mod recipe;
pub mod worker;
pub mod prep_chef;
pub mod cook_chef;
pub mod head_chef;
pub mod codec;
