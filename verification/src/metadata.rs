//! Rollup metadata: the address of the rollup and its origination level.

use vstd::prelude::*;
use vstd::std_specs::convert::FromSpecImpl;
use crate::limits::{METADATA_SIZE, RAW_ROLLUP_ADDRESS_SIZE};

verus! {

/// The number that four bytes spell, most significant byte first.
pub open spec fn be_u32(b: Seq<u8>) -> int {
    b[0] * 0x100_0000 + b[1] * 0x1_0000 + b[2] * 0x100 + b[3]
}

/// The four bytes that spell a number, most significant byte first.
pub open spec fn be_bytes(x: int) -> Seq<u8> {
    seq![
        (x / 0x100_0000 % 0x100) as u8,
        (x / 0x1_0000 % 0x100) as u8,
        (x / 0x100 % 0x100) as u8,
        (x % 0x100) as u8,
    ]
}

/// The encoding of metadata: the address, then the level, most significant
/// byte first.
pub open spec fn encode_metadata(address: Seq<u8>, level: int) -> Seq<u8> {
    address + be_bytes(level)
}

/// The address of a rollup and the level at which it was originated.
#[derive(Clone, Copy, Debug, PartialEq, Eq)]
pub struct RollupMetadata {
    /// The raw address of the rollup.
    pub raw_rollup_address: [u8; 20],
    /// The level at which the rollup was originated.
    pub origination_level: u32,
}

impl RollupMetadata {
    /// Reads metadata from its encoding.
    pub fn from_bytes(bytes: &[u8; 24]) -> (r: RollupMetadata)
        ensures
            r.raw_rollup_address@ == bytes@.take(RAW_ROLLUP_ADDRESS_SIZE as int),
            r.origination_level == be_u32(bytes@.skip(RAW_ROLLUP_ADDRESS_SIZE as int)),
            encode_metadata(r.raw_rollup_address@, r.origination_level as int) == bytes@,
    {
        let mut address = [0u8; 20];
        let mut i: usize = 0;
        while i < 20
            invariant
                i <= 20,
                forall|j: int| 0 <= j < i ==> address@[j] == bytes@[j],
            decreases 20 - i,
        {
            address[i] = bytes[i];
            i += 1;
        }
        let b0 = bytes[20];
        let b1 = bytes[21];
        let b2 = bytes[22];
        let b3 = bytes[23];
        let level: u32 = ((b0 as u32) << 24) | ((b1 as u32) << 16) | ((b2 as u32) << 8) | (
        b3 as u32);
        proof {
            assert(level == b0 * 0x100_0000 + b1 * 0x1_0000 + b2 * 0x100 + b3) by (bit_vector)
                requires
                    level == ((b0 as u32) << 24) | ((b1 as u32) << 16) | ((b2 as u32) << 8) | (
                    b3 as u32),
            ;
            let tail = bytes@.skip(RAW_ROLLUP_ADDRESS_SIZE as int);
            assert(tail[0] == b0 && tail[1] == b1 && tail[2] == b2 && tail[3] == b3);
            assert(address@ =~= bytes@.take(RAW_ROLLUP_ADDRESS_SIZE as int));
            lemma_be_round_trip(tail);
            assert(tail =~= be_bytes(level as int));
            assert(address@ + tail =~= bytes@);
        }
        RollupMetadata { raw_rollup_address: address, origination_level: level }
    }

    /// The encoding of the metadata.
    pub fn to_bytes(&self) -> (r: [u8; 24])
        ensures
            r@ == encode_metadata(self.raw_rollup_address@, self.origination_level as int),
    {
        let mut out = [0u8; 24];
        let mut i: usize = 0;
        while i < 20
            invariant
                i <= 20,
                forall|j: int| 0 <= j < i ==> out@[j] == self.raw_rollup_address@[j],
            decreases 20 - i,
        {
            out[i] = self.raw_rollup_address[i];
            i += 1;
        }
        let level = self.origination_level;
        let b0 = (level >> 24) as u8;
        let b1 = ((level >> 16) & 0xff) as u8;
        let b2 = ((level >> 8) & 0xff) as u8;
        let b3 = (level & 0xff) as u8;
        proof {
            assert(b0 == (level / 0x100_0000 % 0x100) as u8
                && b1 == (level / 0x1_0000 % 0x100) as u8
                && b2 == (level / 0x100 % 0x100) as u8 && b3 == (level % 0x100) as u8)
                by (bit_vector)
                requires
                    b0 == (level >> 24) as u8,
                    b1 == ((level >> 16) & 0xff) as u8,
                    b2 == ((level >> 8) & 0xff) as u8,
                    b3 == (level & 0xff) as u8,
            ;
        }
        out[20] = b0;
        out[21] = b1;
        out[22] = b2;
        out[23] = b3;
        proof {
            assert(out@ =~= encode_metadata(
                self.raw_rollup_address@,
                self.origination_level as int,
            ));
        }
        out
    }
}

/// The metadata that an encoding stands for.
pub open spec fn decoded_metadata(bytes: [u8; 24]) -> RollupMetadata {
    choose|m: RollupMetadata|
        m.raw_rollup_address@ == bytes@.take(RAW_ROLLUP_ADDRESS_SIZE as int)
            && m.origination_level == be_u32(bytes@.skip(RAW_ROLLUP_ADDRESS_SIZE as int))
}

impl From<[u8; 24]> for RollupMetadata {
    fn from(value: [u8; 24]) -> (r: RollupMetadata) {
        let r = RollupMetadata::from_bytes(&value);
        proof {
            let m = decoded_metadata(value);
            assert(m.raw_rollup_address =~= r.raw_rollup_address);
        }
        r
    }
}

impl FromSpecImpl<[u8; 24]> for RollupMetadata {
    open spec fn obeys_from_spec() -> bool {
        true
    }

    open spec fn from_spec(value: [u8; 24]) -> RollupMetadata {
        decoded_metadata(value)
    }
}

/// Four bytes are the bytes that spell the number they spell.
pub proof fn lemma_be_round_trip(b: Seq<u8>)
    requires
        b.len() == 4,
    ensures
        0 <= be_u32(b) <= u32::MAX,
        be_bytes(be_u32(b)) == b,
{
    let x = be_u32(b);
    let (b0, b1, b2, b3) = (b[0], b[1], b[2], b[3]);
    assert(0 <= x <= u32::MAX && x / 0x100_0000 % 0x100 == b0 && x / 0x1_0000 % 0x100 == b1 && x
        / 0x100 % 0x100 == b2 && x % 0x100 == b3) by (nonlinear_arith)
        requires
            x == b0 * 0x100_0000 + b1 * 0x1_0000 + b2 * 0x100 + b3,
            0 <= b0 < 256,
            0 <= b1 < 256,
            0 <= b2 < 256,
            0 <= b3 < 256,
    ;
    assert(be_bytes(x) =~= b);
}

/// A number that fits four bytes is the number that its bytes spell.
pub proof fn lemma_be_bytes_round_trip(x: int)
    requires
        0 <= x <= u32::MAX,
    ensures
        be_bytes(x).len() == 4,
        be_u32(be_bytes(x)) == x,
{
    assert((x / 0x100_0000 % 0x100) * 0x100_0000 + (x / 0x1_0000 % 0x100) * 0x1_0000 + (x / 0x100
        % 0x100) * 0x100 + x % 0x100 == x) by (nonlinear_arith)
        requires
            0 <= x <= 0xffff_ffff,
    ;
}

/// Encoded metadata is read back as it was: the same address and the same
/// level.
pub proof fn lemma_metadata_round_trip(address: Seq<u8>, level: int)
    requires
        address.len() == RAW_ROLLUP_ADDRESS_SIZE,
        0 <= level <= u32::MAX,
    ensures
        encode_metadata(address, level).len() == METADATA_SIZE,
        encode_metadata(address, level).take(RAW_ROLLUP_ADDRESS_SIZE as int) == address,
        be_u32(encode_metadata(address, level).skip(RAW_ROLLUP_ADDRESS_SIZE as int)) == level,
{
    lemma_be_bytes_round_trip(level);
    let e = encode_metadata(address, level);
    assert(e.take(RAW_ROLLUP_ADDRESS_SIZE as int) =~= address);
    assert(e.skip(RAW_ROLLUP_ADDRESS_SIZE as int) =~= be_bytes(level));
}

} // verus!
