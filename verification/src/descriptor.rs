//! Spendable-output descriptors. A descriptor records one on-chain output
//! that this node can claim exclusively; the protocol engine produces them
//! and the sweep engine consumes them. Each variant carries the output's
//! value, an optional secondary token-layer classification (outputs of
//! different classifications cannot share one spend transaction), and the
//! output's script bytes.

use vstd::prelude::*;

verus! {

/// Tag byte of the self-framing encoding, one per variant.
pub const TAG_STATIC: u8 = 1;

pub const TAG_DELAYED: u8 = 2;

pub const TAG_OFFERED: u8 = 3;

/// One on-chain output exclusively claimable by this node.
pub enum Descriptor {
    /// Immediately spendable with a static key.
    StaticKey { value_sats: u64, token: Option<u32>, script: Vec<u8> },
    /// Spendable only after a relative block delay.
    Delayed { value_sats: u64, delay: u16, token: Option<u32>, script: Vec<u8> },
    /// An output the counterparty offered to this node.
    Offered { value_sats: u64, token: Option<u32>, script: Vec<u8> },
}

/// The mathematical model of a descriptor: the same record with its script
/// as a byte sequence.
#[verifier::ext_equal]
pub enum DescModel {
    StaticKey { value_sats: u64, token: Option<u32>, script: Seq<u8> },
    Delayed { value_sats: u64, delay: u16, token: Option<u32>, script: Seq<u8> },
    Offered { value_sats: u64, token: Option<u32>, script: Seq<u8> },
}

impl View for Descriptor {
    type V = DescModel;

    open spec fn view(&self) -> DescModel {
        match self {
            Descriptor::StaticKey { value_sats, token, script } => DescModel::StaticKey {
                value_sats: *value_sats,
                token: *token,
                script: script@,
            },
            Descriptor::Delayed { value_sats, delay, token, script } => DescModel::Delayed {
                value_sats: *value_sats,
                delay: *delay,
                token: *token,
                script: script@,
            },
            Descriptor::Offered { value_sats, token, script } => DescModel::Offered {
                value_sats: *value_sats,
                token: *token,
                script: script@,
            },
        }
    }
}

/// The token-layer classification attached to a descriptor, if any.
pub open spec fn token_of(d: DescModel) -> Option<u32> {
    match d {
        DescModel::StaticKey { token, .. } => token,
        DescModel::Delayed { token, .. } => token,
        DescModel::Offered { token, .. } => token,
    }
}

/// The script bytes of a descriptor.
pub open spec fn script_of(d: DescModel) -> Seq<u8> {
    match d {
        DescModel::StaticKey { script, .. } => script,
        DescModel::Delayed { script, .. } => script,
        DescModel::Offered { script, .. } => script,
    }
}

/// A descriptor whose script fits the one-byte length field of the encoding.
pub open spec fn valid_descriptor(d: DescModel) -> bool {
    script_of(d).len() <= 255
}

/// The models of a sequence of descriptors.
pub open spec fn models_of(s: Seq<Descriptor>) -> Seq<DescModel> {
    s.map_values(|d: Descriptor| d@)
}

impl Descriptor {
    /// The token-layer classification attached to this descriptor, if any.
    pub fn token_class(&self) -> (t: Option<u32>)
        ensures
            t == token_of(self@),
    {
        match self {
            Descriptor::StaticKey { token, .. } => *token,
            Descriptor::Delayed { token, .. } => *token,
            Descriptor::Offered { token, .. } => *token,
        }
    }
}

} // verus!
