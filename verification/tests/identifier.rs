use ancestry::identifier::{Identifier, MalformedIdentifier};

#[test]
fn from_hex_round_trips_through_to_hex() {
    let hex = "9556057aee5abb06912922e9f26c46386a816822";
    let id = Identifier::from_hex(&hex.as_bytes().to_vec()).unwrap();
    assert_eq!(id.to_hex(), hex.as_bytes().to_vec());
}

#[test]
fn from_hex_accepts_upper_case_and_canonicalizes() {
    let id = Identifier::from_hex(&"134385F6D781B7E97062102C6A483440BFDA2A03".as_bytes().to_vec())
        .unwrap();
    assert_eq!(
        id.to_hex(),
        "134385f6d781b7e97062102c6a483440bfda2a03".as_bytes().to_vec()
    );
}

#[test]
fn from_hex_decodes_byte_values() {
    let id = Identifier::from_hex(&"000102030405060708090a0b0c0d0e0f10111213".as_bytes().to_vec())
        .unwrap();
    let expected: Vec<u8> = (0..20).collect();
    assert_eq!(id.as_bytes(), &expected);
}

#[test]
fn from_hex_rejects_wrong_length() {
    assert_eq!(
        Identifier::from_hex(&"9556057a".as_bytes().to_vec()),
        Err(MalformedIdentifier)
    );
    assert_eq!(
        Identifier::from_hex(&"".as_bytes().to_vec()),
        Err(MalformedIdentifier)
    );
}

#[test]
fn from_hex_rejects_non_hex_bytes() {
    assert_eq!(
        Identifier::from_hex(&"z556057aee5abb06912922e9f26c46386a816822".as_bytes().to_vec()),
        Err(MalformedIdentifier)
    );
}

#[test]
fn from_bytes_requires_exact_length() {
    assert!(Identifier::from_bytes(vec![0u8; 20]).is_ok());
    assert_eq!(
        Identifier::from_bytes(vec![0u8; 19]),
        Err(MalformedIdentifier)
    );
    assert_eq!(
        Identifier::from_bytes(vec![0u8; 21]),
        Err(MalformedIdentifier)
    );
}

#[test]
fn equality_is_byte_exact() {
    let a = Identifier::from_bytes(vec![7u8; 20]).unwrap();
    let b = Identifier::from_bytes(vec![7u8; 20]).unwrap();
    let c = Identifier::from_bytes(vec![8u8; 20]).unwrap();
    assert_eq!(a, b);
    assert_ne!(a, c);
    assert_eq!(a.clone(), b);
}
