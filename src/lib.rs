//! An identity record: one mutable profile (name, socials link, interest
//! keywords, region) owned by the account that created it, read and updated
//! through binary-encoded commands.

pub mod codec;
pub mod command_codec;
pub mod hex_text;
pub mod program;
pub mod record;
