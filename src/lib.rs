//! A DNS message codec over a fixed 512-byte packet buffer: header bit
//! fields, questions, typed resource records and compressed domain names.

pub mod name;
pub mod packet;
pub mod header;
pub mod question;
pub mod record;
pub mod dnsmsg;
