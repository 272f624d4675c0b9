//! Verified core of a belief-desire-intention agent runtime: the wire format for
//! exchanged literals, the term language with its unification engine, the knowledge
//! base and the bookkeeping of intentions.

pub mod bdil;
pub mod bytestring;
pub mod literal;
pub mod term;
pub mod variable;
pub mod unification;
pub mod bindings;
pub mod resolve;
pub mod intention;
pub mod event;
pub mod knowledge;
pub mod context;
pub mod plan;
pub mod agent;
