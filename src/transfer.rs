//! Records that carry amounts: a bilateral transfer and the shielded-pool
//! parameters of a token.

use crate::amount::AmountParseError;
use crate::dec::Dec;
use crate::denominated::DenominatedAmount;
use crate::uint::Uint;
use vstd::prelude::*;

verus! {

/// A simple bilateral token transfer. Addresses are held in their encoded
/// form.
#[derive(Clone, Debug, PartialEq, Eq, Hash)]
pub struct Transfer {
    /// Source address will spend the tokens.
    pub source: String,
    /// Target address will receive the tokens.
    pub target: String,
    /// Token's address.
    pub token: String,
    /// The amount of tokens.
    pub amount: DenominatedAmount,
    /// The unused storage location at which to place the transaction id.
    pub key: Option<String>,
    /// Hash of the shielded part of the transaction.
    pub shielded: Option<[u8; 32]>,
}

/// Why a transfer could not be built.
#[derive(Clone, Debug, PartialEq, Eq)]
pub enum TransferError {
    /// An address did not decode; the reason.
    Address(String),
    /// The amount did not parse.
    Amount(AmountParseError),
    /// No token was given.
    NoToken,
}

/// Shielded-pool parameters of a token.
#[derive(Clone, Copy, Debug, PartialEq, Eq, Hash)]
pub struct MaspParams {
    /// Maximum reward rate.
    pub max_reward_rate: Dec,
    /// Nominal derivative gain.
    pub kd_gain_nom: Dec,
    /// Nominal proportional gain.
    pub kp_gain_nom: Dec,
    /// Amount of the token that should be locked in the pool.
    pub locked_amount_target: u64,
}

impl Default for MaspParams {
    /// A reward rate of 0.1, both gains 0.25, and a target of 10000.
    fn default() -> (r: MaspParams)
        ensures
            !r.max_reward_rate.negative && r.max_reward_rate.abs@ == 100_000_000_000,
            !r.kd_gain_nom.negative && r.kd_gain_nom.abs@ == 250_000_000_000,
            !r.kp_gain_nom.negative && r.kp_gain_nom.abs@ == 250_000_000_000,
            r.locked_amount_target == 10_000,
    {
        MaspParams {
            max_reward_rate: Dec { negative: false, abs: Uint::from_u64(100_000_000_000) },
            kp_gain_nom: Dec { negative: false, abs: Uint::from_u64(250_000_000_000) },
            kd_gain_nom: Dec { negative: false, abs: Uint::from_u64(250_000_000_000) },
            locked_amount_target: 10_000,
        }
    }
}

} // verus!
