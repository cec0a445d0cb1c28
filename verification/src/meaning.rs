//! What the operations are for, stated over what goes in and what comes out.
pub mod accounts;
pub mod arithmetic;
pub mod books;
pub mod decoding;
pub mod engines;
pub mod functions;
pub mod labels;
pub mod markets;
pub mod models;
pub mod orders;
pub mod runs;
pub mod sessions;
pub mod setups;
pub mod signals;
pub mod texts;
pub mod trading;
pub mod walks;
pub mod windows;
