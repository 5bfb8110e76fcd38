//! Kinds and outcomes of Ethereum transactions, as a receipt records them.

use vstd::prelude::*;
use vstd::std_specs::convert::{IntoSpecImpl, TryFromSpecImpl};

verus! {

/// Length, in bytes, of a transaction hash.
pub const TRANSACTION_HASH_SIZE: usize = 32;

/// The hash of a transaction.
pub type TransactionHash = [u8; 32];

/// The kind of a transaction.
#[derive(Clone, Copy, Debug, PartialEq, Eq, Structural)]
pub enum TransactionType {
    Legacy,
    Eip2930,
    Eip1559,
}

/// Whether a transaction succeeded.
#[derive(Clone, Copy, Debug, PartialEq, Eq, Structural)]
pub enum TransactionStatus {
    Success,
    Failure,
}

/// Why bytes were not read as a status.
#[derive(Clone, Copy, Debug, PartialEq, Eq, Structural)]
pub enum TransactionStatusDecodingError {
    /// The byte is neither 0 nor 1.
    InvalidEncoding,
    /// A status is one byte, and the bytes are none or several.
    InvalidVectorLength,
}

/// The status that a byte stands for: 0 for a failure, 1 for a success.
pub open spec fn status_of_byte(v: u8) -> Result<
    TransactionStatus,
    TransactionStatusDecodingError,
> {
    if v == 0 {
        Ok(TransactionStatus::Failure)
    } else if v == 1 {
        Ok(TransactionStatus::Success)
    } else {
        Err(TransactionStatusDecodingError::InvalidEncoding)
    }
}

/// The status that a byte string stands for: that of its one byte.
pub open spec fn status_of_bytes(v: Seq<u8>) -> Result<
    TransactionStatus,
    TransactionStatusDecodingError,
> {
    if v.len() == 1 {
        status_of_byte(v[0])
    } else {
        Err(TransactionStatusDecodingError::InvalidVectorLength)
    }
}

impl TryFrom<&u8> for TransactionStatus {
    type Error = TransactionStatusDecodingError;

    fn try_from(v: &u8) -> (r: Result<Self, Self::Error>)
        ensures
            r == status_of_byte(*v),
    {
        if *v == 0 {
            Ok(Self::Failure)
        } else if *v == 1 {
            Ok(Self::Success)
        } else {
            Err(TransactionStatusDecodingError::InvalidEncoding)
        }
    }
}

impl TryFromSpecImpl<&u8> for TransactionStatus {
    open spec fn obeys_try_from_spec() -> bool {
        true
    }

    open spec fn try_from_spec(v: &u8) -> Result<Self, Self::Error> {
        status_of_byte(*v)
    }
}

impl TryFrom<&Vec<u8>> for TransactionStatus {
    type Error = TransactionStatusDecodingError;

    fn try_from(v: &Vec<u8>) -> (r: Result<Self, Self::Error>)
        ensures
            r == status_of_bytes(v@),
    {
        if v.len() == 1 {
            TransactionStatus::try_from(&v[0])
        } else {
            Err(TransactionStatusDecodingError::InvalidVectorLength)
        }
    }
}

impl TryFromSpecImpl<&Vec<u8>> for TransactionStatus {
    open spec fn obeys_try_from_spec() -> bool {
        true
    }

    open spec fn try_from_spec(v: &Vec<u8>) -> Result<Self, Self::Error> {
        status_of_bytes(v@)
    }
}

/// The byte that stands for a kind of transaction.
pub open spec fn type_byte(t: TransactionType) -> u8 {
    match t {
        TransactionType::Legacy => 0,
        TransactionType::Eip2930 => 1,
        TransactionType::Eip1559 => 2,
    }
}

/// The byte that stands for a status.
pub open spec fn status_byte(s: TransactionStatus) -> u8 {
    match s {
        TransactionStatus::Success => 1,
        TransactionStatus::Failure => 0,
    }
}

impl TransactionType {
    /// The encoding of the kind: its byte.
    pub fn as_bytes(&self) -> (r: &'static [u8])
        ensures
            r@ == seq![type_byte(*self)],
    {
        match self {
            TransactionType::Legacy => [0u8].as_slice(),
            TransactionType::Eip2930 => [1u8].as_slice(),
            TransactionType::Eip1559 => [2u8].as_slice(),
        }
    }
}

/// The bytes of a byte string.
pub open spec fn bytes_of(r: &[u8]) -> Seq<u8> {
    r@
}

/// The byte string that holds one byte and no more.
pub open spec fn one_byte(b: u8) -> &'static [u8] {
    choose|r: &'static [u8]| r@ == seq![b]
}

impl Into<&'static [u8]> for &TransactionType {
    fn into(self) -> (r: &'static [u8])
        ensures
            bytes_of(r) == seq![type_byte(*self)],
    {
        let r = self.as_bytes();
        proof {
            assert(r =~= one_byte(type_byte(*self)));
        }
        r
    }
}

impl IntoSpecImpl<&'static [u8]> for &TransactionType {
    open spec fn obeys_into_spec() -> bool {
        true
    }

    open spec fn into_spec(self) -> &'static [u8] {
        one_byte(type_byte(*self))
    }
}

impl TransactionStatus {
    /// The encoding of the status: its byte.
    pub fn as_bytes(&self) -> (r: &'static [u8])
        ensures
            r@ == seq![status_byte(*self)],
    {
        match self {
            TransactionStatus::Success => [1u8].as_slice(),
            TransactionStatus::Failure => [0u8].as_slice(),
        }
    }
}

impl Into<&'static [u8]> for &TransactionStatus {
    fn into(self) -> (r: &'static [u8])
        ensures
            bytes_of(r) == seq![status_byte(*self)],
    {
        let r = self.as_bytes();
        proof {
            assert(r =~= one_byte(status_byte(*self)));
        }
        r
    }
}

impl IntoSpecImpl<&'static [u8]> for &TransactionStatus {
    open spec fn obeys_into_spec() -> bool {
        true
    }

    open spec fn into_spec(self) -> &'static [u8] {
        one_byte(status_byte(*self))
    }
}

/// The status that the encoding of a status stands for is that status.
pub proof fn lemma_status_round_trip(s: TransactionStatus)
    ensures
        status_of_bytes(seq![status_byte(s)]) == Ok::<
            TransactionStatus,
            TransactionStatusDecodingError,
        >(s),
{
}

/// A hash of 20 bytes, as `primitive_types` defines it.
#[verifier::external_type_specification]
#[verifier::external_body]
pub struct ExH160(primitive_types::H160);

/// A hash of 32 bytes, as `primitive_types` defines it.
#[verifier::external_type_specification]
#[verifier::external_body]
pub struct ExH256(primitive_types::H256);

/// An unsigned integer of 256 bits, as `primitive_types` defines it.
#[verifier::external_type_specification]
#[verifier::external_body]
pub struct ExU256(primitive_types::U256);

/// The address of an Ethereum account.
pub struct EthereumAddress(pub primitive_types::H160);

/// What is recorded of a transaction once it is in a block.
pub struct TransactionReceipt {
    /// Hash of the transaction.
    pub hash: TransactionHash,
    /// Position of the transaction in its block.
    pub index: u32,
    /// Hash of the block that holds the transaction.
    pub block_hash: primitive_types::H256,
    /// Number of the block that holds the transaction.
    pub block_number: primitive_types::U256,
    /// Address of the sender.
    pub from: EthereumAddress,
    /// Address of the receiver; none where the transaction creates a contract.
    pub to: Option<EthereumAddress>,
    /// Gas used in the block up to and including this transaction.
    pub cumulative_gas_used: primitive_types::U256,
    /// Base fee and tip paid for each unit of gas.
    pub effective_gas_price: primitive_types::U256,
    /// Gas used by this transaction alone.
    pub gas_used: primitive_types::U256,
    /// Address of the contract created, where the transaction created one.
    pub contract_address: Option<primitive_types::H160>,
    /// Kind of the transaction.
    pub type_: TransactionType,
    /// Whether the transaction succeeded.
    pub status: TransactionStatus,
}

} // verus!
