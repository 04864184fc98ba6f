//! Conversions between the game server's two-word player ids and UUIDs.
use vstd::prelude::*;

verus! {

/// A player id as the game server hands it out: the UUID's most
/// significant 64 bits and its least significant 64 bits.
#[derive(Debug, Clone, Copy, PartialEq, Eq, Structural)]
pub struct WitUuid {
    pub high: u64,
    pub low: u64,
}

pub fn wit_uuid_to_uuid(id: WitUuid) -> (r: u128)
    ensures
        r == id.high as nat * 0x1_0000_0000_0000_0000 + id.low as nat,
{
    (id.high as u128) * 0x1_0000_0000_0000_0000 + id.low as u128
}

pub fn uuid_to_wit_uuid(id: u128) -> (r: WitUuid)
    ensures
        r.high == id / 0x1_0000_0000_0000_0000,
        r.low == id % 0x1_0000_0000_0000_0000,
{
    WitUuid {
        high: (id / 0x1_0000_0000_0000_0000) as u64,
        low: (id % 0x1_0000_0000_0000_0000) as u64,
    }
}

/// The two conversions undo each other.
pub proof fn lemma_wit_uuid_roundtrip(id: u128, w: WitUuid)
    ensures
        ({
            let h = id / 0x1_0000_0000_0000_0000;
            let l = id % 0x1_0000_0000_0000_0000;
            h * 0x1_0000_0000_0000_0000 + l == id
        }),
        ({
            let u = w.high as nat * 0x1_0000_0000_0000_0000 + w.low as nat;
            u / 0x1_0000_0000_0000_0000 == w.high && u % 0x1_0000_0000_0000_0000 == w.low
        }),
{
    let u = w.high as nat * 0x1_0000_0000_0000_0000 + w.low as nat;
    assert(u / 0x1_0000_0000_0000_0000 == w.high && u % 0x1_0000_0000_0000_0000 == w.low)
        by (nonlinear_arith)
        requires
            u == w.high as nat * 0x1_0000_0000_0000_0000 + w.low as nat,
            w.low < 0x1_0000_0000_0000_0000,
    ;
}

} // verus!
