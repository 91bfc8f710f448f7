//! Transparent DNS response rewriter.
//!
//! The library inspects one received network frame at a time. When the frame
//! is an IPv4/UDP packet coming from source port 53, carries a single-question
//! DNS response, the question name is present in the host table, and an
//! address-type answer record is found within the scan bound, the four
//! address bytes of that record are overwritten in place with the table's
//! value. Every other packet passes through byte-identical.
//!
//! Every byte of the frame is reached through a bounds-checked accessor, all
//! loops have fixed trip counts, and no parse state outlives one invocation.

pub mod dns;
pub mod hostgen;
pub mod packet;
pub mod rewrite;
pub mod table;
