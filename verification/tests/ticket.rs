use num_bigint::BigInt;
use rollup_host::digest::preimage_hash;
use rollup_host::ticket::{
    ticket_hash, Contract, HexError, MichelsonContract, MichelsonString, Ticket, TicketError,
    TicketHash,
};

fn creator() -> Contract {
    Contract::Originated(vec![0x11; 20])
}

#[test]
fn a_positive_amount_makes_a_ticket() {
    let ticket = Ticket::<String>::new(creator(), "Hello, Ticket", 900).unwrap();
    assert_eq!(ticket.creator(), &MichelsonContract(creator()));
    assert_eq!(ticket.contents(), "Hello, Ticket");
    assert_eq!(ticket.amount(), &BigInt::from(900));
}

#[test]
fn zero_and_negative_amounts_are_refused() {
    match Ticket::<()>::new(creator(), (), 0) {
        Err(TicketError::InvalidAmount(amount)) => assert_eq!(amount, BigInt::from(0)),
        Ok(_) => panic!("a ticket of amount zero"),
    }
    match Ticket::<Vec<u8>>::new(creator(), vec![1u8, 2, 3], -25) {
        Err(TicketError::InvalidAmount(amount)) => assert_eq!(amount, BigInt::from(-25)),
        Ok(_) => panic!("a ticket of a negative amount"),
    }
    assert!(Ticket::<()>::new(creator(), (), 1u8).is_ok());
    assert!(Ticket::<i64>::new(creator(), -25i32, BigInt::from(17)).is_ok());
}

#[test]
fn from_parts_goes_by_the_sign_it_is_told() {
    assert!(Ticket::<u8>::from_parts(creator(), 5u8, BigInt::from(-1), true).is_ok());
    match Ticket::<u8>::from_parts(creator(), 5u8, BigInt::from(17), false) {
        Err(TicketError::InvalidAmount(amount)) => assert_eq!(amount, BigInt::from(17)),
        Ok(_) => panic!("a ticket was made"),
    }
}

#[test]
fn amount_as_converts_the_amount() {
    let ticket = Ticket::<()>::new(creator(), (), 500).unwrap();
    assert_eq!(ticket.amount_as::<u64, _>().ok(), Some(500u64));
    let large = Ticket::<()>::new(creator(), (), BigInt::from(u64::MAX) + 1).unwrap();
    assert!(large.amount_as::<u64, _>().is_err());
    assert_eq!(large.amount_as::<u128, _>().ok(), Some(u64::MAX as u128 + 1));
}

#[test]
fn hash_is_the_digest_of_both_encodings() {
    let hash = ticket_hash(&[1, 2, 3], &[4, 5]).ok().unwrap();
    assert_eq!(hash.as_bytes(), &preimage_hash(&[1, 2, 3, 4, 5]));
    let other = ticket_hash(&[1, 2], &[3, 4, 5]).ok().unwrap();
    assert_eq!(hash, other);
    let different = ticket_hash(&[4, 5], &[1, 2, 3]).ok().unwrap();
    assert_ne!(hash, different);
}

#[test]
fn hash_is_written_in_lower_case_hex() {
    let mut bytes = [0u8; 32];
    for (i, b) in bytes.iter_mut().enumerate() {
        *b = (i * 8 + 7) as u8;
    }
    let hash = TicketHash::from_bytes(bytes);
    assert_eq!(
        hash.to_hex(),
        "070f171f272f373f474f575f676f777f878f979fa7afb7bfc7cfd7dfe7eff7ff"
    );
    let text: String = hash.into();
    assert_eq!(text, "070f171f272f373f474f575f676f777f878f979fa7afb7bfc7cfd7dfe7eff7ff");
}

#[test]
fn hash_is_read_from_hex_in_either_case() {
    let lower = "070f171f272f373f474f575f676f777f878f979fa7afb7bfc7cfd7dfe7eff7ff";
    let upper = "070F171F272F373F474F575F676F777F878F979FA7AFB7BFC7CFD7DFE7EFF7FF";
    let mut bytes = [0u8; 32];
    for (i, b) in bytes.iter_mut().enumerate() {
        *b = (i * 8 + 7) as u8;
    }
    assert_eq!(TicketHash::from_hex(lower), Ok(TicketHash::from_bytes(bytes)));
    assert_eq!(TicketHash::from_hex(upper), Ok(TicketHash::from_bytes(bytes)));
    assert_eq!(TicketHash::try_from(lower.to_string()), Ok(TicketHash::from_bytes(bytes)));
}

#[test]
fn bad_hex_is_refused() {
    let good = "070f171f272f373f474f575f676f777f878f979fa7afb7bfc7cfd7dfe7eff7ff";
    assert_eq!(TicketHash::from_hex(&good[..63]), Err(HexError::OddLength));
    assert_eq!(TicketHash::from_hex(&good[..62]), Err(HexError::InvalidStringLength));
    assert_eq!(TicketHash::from_hex(""), Err(HexError::InvalidStringLength));
    let mut bad = String::from(good);
    bad.replace_range(10..11, "g");
    bad.replace_range(20..21, "z");
    assert_eq!(
        TicketHash::from_hex(&bad),
        Err(HexError::InvalidHexCharacter { c: 'g', index: 10 })
    );
    let odd_and_bad = "zz0";
    assert_eq!(TicketHash::from_hex(odd_and_bad), Err(HexError::OddLength));
}

#[test]
fn hashes_order_by_their_bytes() {
    let mut low = [0u8; 32];
    let mut high = [0u8; 32];
    low[31] = 1;
    high[0] = 1;
    assert!(TicketHash::from_bytes(low) < TicketHash::from_bytes(high));
    assert!(TicketHash::from_bytes([0u8; 32]) < TicketHash::from_bytes(low));
    assert_eq!(TicketHash::from_bytes(low), TicketHash::from_bytes(low));
}

#[test]
fn testing_clone_copies_every_part() {
    let ticket = Ticket::<MichelsonString>::new(
        Contract::Implicit(vec![0, 1, 2]),
        MichelsonString("Hello, Ticket".to_string()),
        900,
    )
    .unwrap();
    let copy = ticket.testing_clone();
    assert_eq!(copy, ticket);
    assert_eq!(copy.creator(), &MichelsonContract(Contract::Implicit(vec![0, 1, 2])));
    assert_eq!(copy.contents(), &MichelsonString("Hello, Ticket".to_string()));
    assert_eq!(copy.amount(), &BigInt::from(900));
}
