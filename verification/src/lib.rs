//! A binary codec for the messages of a key-management agent: keys, signatures
//! and protocol messages are turned into an exact sequence of bytes and read
//! back from it, with every rule of the wire format stated and proved.

pub mod proto;
