//! Fixed-point token amounts: a 256-bit magnitude, its decimal
//! denominations, and the encodings that ledgers store them under.

pub mod amount;
pub mod dec;
pub mod decimal;
pub mod denominated;
pub mod key;
pub mod laws;
pub mod masp;
pub mod transfer;
pub mod uint;
