//! Dining philosophers: a fixed roster of workers, each needing two exclusive
//! resource slots, and a model of the acquisition protocol in which
//! deadlock freedom of the asymmetric roster is proved.

pub mod arith;
pub mod version;
pub mod roster;
pub mod protocol;
