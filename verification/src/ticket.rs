//! Tickets: a creator, contents and a positive amount, and the hash that
//! identifies a ticket by its creator and contents.

use vstd::prelude::*;
use vstd::std_specs::convert::{IntoSpecImpl, TryFromSpecImpl};
use vstd::string::StringSliceAdditionalSpecFns;
use crate::digest::{blake2b_256, preimage_hash};

verus! {

/// The length of a ticket hash.
pub const TICKET_HASH_SIZE: usize = 32;

/// An integer of any size, as `num_bigint` defines it.
#[verifier::external_type_specification]
#[verifier::external_body]
pub struct ExBigInt(num_bigint::BigInt);

/// Whether an integer is greater than zero, as `num_traits::Signed::is_positive`
/// tells it.
pub uninterp spec fn signed_is_positive(amount: num_bigint::BigInt) -> bool;

/// Calls `num_traits::Signed::is_positive` on an integer of `num_bigint`.
/// Nothing is proved of the call. It is taken to depend on the integer
/// alone: true for a positive integer, false for zero and for a negative
/// one.
#[verifier::external_body]
fn is_positive(amount: &num_bigint::BigInt) -> (r: bool)
    ensures
        r == signed_is_positive(*amount),
{
    num_traits::Signed::is_positive(amount)
}

/// `Clone::clone` on an integer of `num_bigint`. Nothing is proved of it. It
/// is taken to return the same integer.
pub assume_specification[ <num_bigint::BigInt as Clone>::clone ](
    amount: &num_bigint::BigInt,
) -> (r: num_bigint::BigInt)
    ensures
        r == *amount,
;

/// The value of a hexadecimal digit, in either case.
pub open spec fn hex_value(c: u8) -> int {
    if 48 <= c <= 57 {
        c - 48
    } else if 97 <= c <= 102 {
        c - 97 + 10
    } else {
        c - 65 + 10
    }
}

/// A hexadecimal digit, in either case.
pub open spec fn is_hex_digit(c: u8) -> bool {
    48 <= c <= 57 || 97 <= c <= 102 || 65 <= c <= 70
}

/// The lower-case hexadecimal digit of a value below 16.
pub open spec fn hex_digit(v: int) -> char {
    if v < 10 {
        (48 + v) as u8 as char
    } else {
        (97 + v - 10) as u8 as char
    }
}

/// The lower-case hexadecimal form of bytes: two digits for each byte, the
/// upper half first.
pub open spec fn hex_encoded(bytes: Seq<u8>) -> Seq<char> {
    Seq::new(
        2 * bytes.len(),
        |i: int|
            if i % 2 == 0 {
                hex_digit(bytes[i / 2] as int / 16)
            } else {
                hex_digit(bytes[i / 2] as int % 16)
            },
    )
}

/// Why text was not read as the hexadecimal form of a hash.
#[derive(Clone, Copy, Debug, PartialEq, Eq, Structural)]
pub enum HexError {
    /// The character at `index` is no hexadecimal digit.
    InvalidHexCharacter { c: char, index: usize },
    /// The text has an odd number of bytes.
    OddLength,
    /// The text has not two digits for each byte of the hash.
    InvalidStringLength,
}

/// The position of the first byte that is no hexadecimal digit.
pub open spec fn first_bad_digit(data: Seq<u8>) -> int {
    choose|i: int|
        0 <= i < data.len() && !is_hex_digit(data[i]) && forall|j: int|
            0 <= j < i ==> is_hex_digit(#[trigger] data[j])
}

/// What the hexadecimal form `data` is read as, into `out_len` bytes: the
/// length is judged first, odd before wrong, then the digits from the left.
pub open spec fn hex_decoded(data: Seq<u8>, out_len: int) -> Result<Seq<u8>, HexError> {
    if data.len() % 2 != 0 {
        Err(HexError::OddLength)
    } else if data.len() / 2 != out_len {
        Err(HexError::InvalidStringLength)
    } else if exists|i: int| 0 <= i < data.len() && !is_hex_digit(#[trigger] data[i]) {
        Err(
            HexError::InvalidHexCharacter {
                c: data[first_bad_digit(data)] as char,
                index: first_bad_digit(data) as usize,
            },
        )
    } else {
        Ok(
            Seq::new(
                out_len as nat,
                |i: int| (hex_value(data[2 * i]) * 16 + hex_value(data[2 * i + 1])) as u8,
            ),
        )
    }
}

/// Calls `hex::encode`. Nothing is proved of the call. It is taken to
/// return the lower-case hexadecimal form of the bytes.
#[verifier::external_body]
fn hex_encode(bytes: &[u8]) -> (r: String)
    ensures
        r@ == hex_encoded(bytes@),
{
    hex::encode(bytes)
}

/// Calls `hex::decode_to_slice` on a buffer of 32 bytes. Nothing is proved
/// of the call. It is taken to refuse an odd length, then a length other
/// than 64, then the first byte from the left that is no hexadecimal digit,
/// and else to return the bytes that the digits spell, two for each.
#[verifier::external_body]
fn hex_decode_32(data: &[u8]) -> (r: Result<[u8; 32], HexError>)
    ensures
        match r {
            Ok(out) => hex_decoded(data@, 32) == Ok::<Seq<u8>, HexError>(out@),
            Err(e) => hex_decoded(data@, 32) == Err::<Seq<u8>, HexError>(e),
        },
{
    let mut out = [0u8; 32];
    match hex::decode_to_slice(data, &mut out) {
        Ok(()) => Ok(out),
        Err(hex::FromHexError::InvalidHexCharacter { c, index }) => Err(
            HexError::InvalidHexCharacter { c, index },
        ),
        Err(hex::FromHexError::OddLength) => Err(HexError::OddLength),
        Err(hex::FromHexError::InvalidStringLength) => Err(HexError::InvalidStringLength),
    }
}

/// The hash of a ticket: it identifies the ticket by creator and contents.
#[derive(Clone, Copy, Debug, PartialEq, Eq, PartialOrd, Ord)]
pub struct TicketHash {
    inner: [u8; 32],
}

impl View for TicketHash {
    type V = Seq<u8>;

    closed spec fn view(&self) -> Seq<u8> {
        self.inner@
    }
}

impl TicketHash {
    /// The hash with the given bytes.
    pub fn from_bytes(inner: [u8; 32]) -> (r: TicketHash)
        ensures
            r@ == inner@,
    {
        TicketHash { inner }
    }

    /// The bytes of the hash.
    pub fn as_bytes(&self) -> (r: &[u8; 32])
        ensures
            r@ == self@,
    {
        &self.inner
    }

    /// The lower-case hexadecimal form of the hash.
    pub fn to_hex(&self) -> (r: String)
        ensures
            r@ == hex_encoded(self@),
    {
        hex_encode(self.inner.as_slice())
    }

    /// Reads a hash from its hexadecimal form, in either case.
    pub fn from_hex(value: &str) -> (r: Result<TicketHash, HexError>)
        ensures
            match r {
                Ok(hash) => hex_decoded(value.spec_bytes(), 32) == Ok::<Seq<u8>, HexError>(hash@),
                Err(e) => hex_decoded(value.spec_bytes(), 32) == Err::<Seq<u8>, HexError>(e),
            },
    {
        match hex_decode_32(value.as_bytes()) {
            Ok(inner) => Ok(TicketHash { inner }),
            Err(e) => Err(e),
        }
    }
}

/// Why a ticket could not be hashed.
#[derive(Debug)]
pub enum TicketHashError {
    /// The digest was refused.
    Hashing(tezos_crypto_rs::blake2b::Blake2bError),
}

/// Why a ticket could not be made.
#[derive(Debug, Clone)]
pub enum TicketError {
    /// The amount is not positive.
    InvalidAmount(num_bigint::BigInt),
}

/// The hash of a ticket, from the encodings of its creator and of its
/// contents: the digest of the first followed by the second.
pub fn ticket_hash(creator: &[u8], contents: &[u8]) -> (r: Result<TicketHash, TicketHashError>)
    ensures
        r matches Ok(hash) && hash@ == blake2b_256(creator@ + contents@),
{
    let mut bytes: Vec<u8> = Vec::new();
    let mut i: usize = 0;
    while i < creator.len()
        invariant
            i <= creator.len(),
            bytes@ == creator@.take(i as int),
        decreases creator.len() - i,
    {
        bytes.push(creator[i]);
        proof {
            assert(bytes@ =~= creator@.take(i + 1));
        }
        i += 1;
    }
    let mut j: usize = 0;
    proof {
        assert(bytes@ =~= creator@ + contents@.take(0));
    }
    while j < contents.len()
        invariant
            j <= contents.len(),
            bytes@ == creator@ + contents@.take(j as int),
        decreases contents.len() - j,
    {
        bytes.push(contents[j]);
        proof {
            assert(bytes@ =~= creator@ + contents@.take(j + 1));
        }
        j += 1;
    }
    proof {
        assert(contents@.take(j as int) =~= contents@);
    }
    Ok(TicketHash { inner: preimage_hash(bytes.as_slice()) })
}

/// The address of a contract of the chain: the hash of the key of an
/// implicit account, or the hash of an originated contract.
#[derive(Debug, PartialEq, Eq)]
pub enum Contract {
    Implicit(Vec<u8>),
    Originated(Vec<u8>),
}

impl Contract {
    /// The bytes of the hash that the address holds.
    pub open spec fn hash_bytes(&self) -> Seq<u8> {
        match self {
            Contract::Implicit(hash) => hash@,
            Contract::Originated(hash) => hash@,
        }
    }
}

impl Clone for Contract {
    fn clone(&self) -> (r: Contract)
        ensures
            r is Implicit == self is Implicit,
            r.hash_bytes() == self.hash_bytes(),
    {
        match self {
            Contract::Implicit(hash) => Contract::Implicit(
                vstd::slice::slice_to_vec(hash.as_slice()),
            ),
            Contract::Originated(hash) => Contract::Originated(
                vstd::slice::slice_to_vec(hash.as_slice()),
            ),
        }
    }
}

/// A string as a value.
#[derive(Debug, PartialEq, Eq)]
pub struct MichelsonString(pub String);

/// A pair of two values.
#[derive(Debug, PartialEq, Eq)]
pub struct MichelsonPair<L, R>(pub L, pub R);

/// A contract as a value.
#[derive(Debug, PartialEq, Eq)]
pub struct MichelsonContract(pub Contract);

/// An integer as a value.
#[derive(Debug, PartialEq, Eq)]
pub struct MichelsonInt(pub num_bigint::BigInt);

/// A ticket: its creator, its contents and its amount, which is positive in
/// every ticket made by `new`.
#[derive(Debug, PartialEq, Eq)]
pub struct Ticket<Expr>(pub MichelsonPair<MichelsonContract, MichelsonPair<Expr, MichelsonInt>>);

impl<Expr> Ticket<Expr> {
    /// The ticket of the three parts.
    pub open spec fn of(creator: Contract, contents: Expr, amount: num_bigint::BigInt) -> Ticket<
        Expr,
    > {
        Ticket(
            MichelsonPair(
                MichelsonContract(creator),
                MichelsonPair(contents, MichelsonInt(amount)),
            ),
        )
    }

    /// Makes a ticket of an amount whose sign was told: refused, with the
    /// amount handed back, where it is not positive.
    pub fn from_parts(
        creator: Contract,
        contents: Expr,
        amount: num_bigint::BigInt,
        positive: bool,
    ) -> (r: Result<Ticket<Expr>, TicketError>)
        ensures
            positive ==> (r matches Ok(ticket) && ticket == Self::of(creator, contents, amount)),
            !positive ==> (r matches Err(TicketError::InvalidAmount(given)) && given == amount),
    {
        if positive {
            Ok(
                Ticket(
                    MichelsonPair(
                        MichelsonContract(creator),
                        MichelsonPair(contents, MichelsonInt(amount)),
                    ),
                ),
            )
        } else {
            Err(TicketError::InvalidAmount(amount))
        }
    }

    /// Makes a ticket of a creator, of what `contents` converts to, and of
    /// the amount that `amount` converts to. Refused, with that amount
    /// handed back, where it is not positive.
    pub fn new<Val: Into<Expr>, Amount: Into<num_bigint::BigInt>>(
        creator: Contract,
        contents: Val,
        amount: Amount,
    ) -> (r: Result<Ticket<Expr>, TicketError>)
        ensures
            match r {
                Ok(ticket) => {
                    &&& ticket.0.0.0 == creator
                    &&& call_ensures(Val::into, (contents,), ticket.0.1.0)
                    &&& call_ensures(Amount::into, (amount,), ticket.0.1.1.0)
                    &&& signed_is_positive(ticket.0.1.1.0)
                },
                Err(TicketError::InvalidAmount(given)) => {
                    &&& call_ensures(Amount::into, (amount,), given)
                    &&& !signed_is_positive(given)
                },
            },
    {
        let amount: num_bigint::BigInt = amount.into();
        let positive = is_positive(&amount);
        if positive {
            Self::from_parts(creator, contents.into(), amount, positive)
        } else {
            Err(TicketError::InvalidAmount(amount))
        }
    }

    /// The creator of the ticket.
    pub fn creator(&self) -> (r: &MichelsonContract)
        ensures
            *r == self.0.0,
    {
        &self.0.0
    }

    /// The contents of the ticket.
    pub fn contents(&self) -> (r: &Expr)
        ensures
            *r == self.0.1.0,
    {
        &self.0.1.0
    }

    /// The amount of the ticket.
    pub fn amount(&self) -> (r: &num_bigint::BigInt)
        ensures
            *r == self.0.1.1.0,
    {
        &self.0.1.1.0
    }

    /// The amount of the ticket as a `T`, as far as `T` can hold it: what
    /// the conversion of `T` makes of the amount.
    pub fn amount_as<T: TryFrom<num_bigint::BigInt, Error = E>, E>(&self) -> (r: Result<T, E>)
        ensures
            call_ensures(T::try_from, (self.0.1.1.0,), r),
    {
        T::try_from(self.amount().clone())
    }
}

impl Ticket<MichelsonString> {
    /// A ticket with the same creator, the same text and the same amount.
    pub fn testing_clone(&self) -> (r: Self)
        ensures
            r.0.0.0 is Implicit == self.0.0.0 is Implicit,
            r.0.0.0.hash_bytes() == self.0.0.0.hash_bytes(),
            r.0.1.0.0@ == self.0.1.0.0@,
            r.0.1.1.0 == self.0.1.1.0,
    {
        Ticket(
            MichelsonPair(
                MichelsonContract(self.creator().0.clone()),
                MichelsonPair(
                    MichelsonString(self.contents().0.clone()),
                    MichelsonInt(self.amount().clone()),
                ),
            ),
        )
    }
}

/// The characters of a string.
pub open spec fn chars_of(s: String) -> Seq<char> {
    s@
}

impl Into<String> for TicketHash {
    fn into(self) -> (r: String)
        ensures
            chars_of(r) == hex_encoded(self@),
    {
        self.to_hex()
    }
}

impl IntoSpecImpl<String> for TicketHash {
    open spec fn obeys_into_spec() -> bool {
        false
    }

    open spec fn into_spec(self) -> String {
        arbitrary()
    }
}

/// The hash with the given bytes.
pub open spec fn hash_of_bytes(bytes: Seq<u8>) -> TicketHash {
    choose|hash: TicketHash| hash@ == bytes
}

/// What was read, as bytes: the bytes of the hash, or the refusal.
pub open spec fn hash_bytes_of(r: Result<TicketHash, HexError>) -> Result<Seq<u8>, HexError> {
    match r {
        Ok(hash) => Ok(hash@),
        Err(e) => Err(e),
    }
}

impl TryFrom<String> for TicketHash {
    type Error = HexError;

    fn try_from(value: String) -> (r: Result<Self, Self::Error>)
        ensures
            hash_bytes_of(r) == hex_decoded(vstd::utf8::encode_utf8(value@), 32),
    {
        let r = TicketHash::from_hex(value.as_str());
        proof {
            if let Ok(hash) = r {
                let chosen = hash_of_bytes(hash@);
                assert(chosen.inner =~= hash.inner);
            }
        }
        r
    }
}

impl TryFromSpecImpl<String> for TicketHash {
    open spec fn obeys_try_from_spec() -> bool {
        true
    }

    open spec fn try_from_spec(value: String) -> Result<Self, Self::Error> {
        match hex_decoded(vstd::utf8::encode_utf8(value@), 32) {
            Ok(bytes) => Ok(hash_of_bytes(bytes)),
            Err(e) => Err(e),
        }
    }
}

} // verus!
