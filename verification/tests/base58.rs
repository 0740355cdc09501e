use based58::{b58decode, b58decode_check, b58encode, b58encode_check, Alphabet, AlphabetError,
    DecodeError};

const BITCOIN_CHARS: &[u8] = b"123456789ABCDEFGHJKLMNPQRSTUVWXYZabcdefghijkmnopqrstuvwxyz";

fn sample_payloads() -> Vec<Vec<u8>> {
    vec![
        vec![],
        vec![0x00],
        vec![0x00, 0x00, 0x00],
        vec![0x00, 0x00, 0x01, 0x02],
        vec![0x01],
        vec![0x39],
        vec![0x3a],
        vec![0xff],
        vec![0xff, 0xff, 0xff, 0xff, 0xff],
        vec![0x04, 0x30, 0x5e, 0x2b, 0x24, 0x73, 0xf0, 0x58],
        b"Hello World!".to_vec(),
        (0u8..=255).collect(),
    ]
}

fn alphabets() -> Vec<Alphabet> {
    vec![
        Alphabet::bitcoin(),
        Alphabet::monero(),
        Alphabet::ripple(),
        Alphabet::flickr(),
        Alphabet::new(b" !\"#$%&'()*+,-./0123456789:;<=>?@ABCDEFGHIJKLMNOPQRSTUVWXY").unwrap(),
    ]
}

#[test]
fn alphabet_too_short_fails_wrong_length() {
    let r = Alphabet::new(&BITCOIN_CHARS[..57]);
    assert_eq!(r.unwrap_err(), AlphabetError::WrongLength { actual: 57 });
}

#[test]
fn alphabet_too_long_fails_wrong_length() {
    let mut chars = BITCOIN_CHARS.to_vec();
    chars.push(b'0');
    let r = Alphabet::new(&chars);
    assert_eq!(r.unwrap_err(), AlphabetError::WrongLength { actual: 59 });
}

#[test]
fn alphabet_repeat_fails_duplicate_byte() {
    let mut chars = BITCOIN_CHARS.to_vec();
    chars[57] = b'1';
    let r = Alphabet::new(&chars);
    assert_eq!(r.unwrap_err(), AlphabetError::DuplicateByte { value: b'1' });
}

#[test]
fn alphabet_distinct_bytes_succeed() {
    let a = Alphabet::new(BITCOIN_CHARS).unwrap();
    assert_eq!(a.symbols, BITCOIN_CHARS.to_vec());
}

#[test]
fn encode_single_zero_byte() {
    let a = Alphabet::bitcoin();
    assert_eq!(b58encode(&[0x00], &a), b"1".to_vec());
}

#[test]
fn decode_single_one_symbol() {
    let a = Alphabet::bitcoin();
    assert_eq!(b58decode(b"1", &a).unwrap(), vec![0x00]);
}

#[test]
fn decode_hello_world_default() {
    let a = Alphabet::bitcoin();
    assert_eq!(
        b58decode(b"he11owor1d", &a).unwrap(),
        vec![0x04, 0x30, 0x5e, 0x2b, 0x24, 0x73, 0xf0, 0x58]
    );
}

#[test]
fn decode_hello_world_ripple() {
    let a = Alphabet::ripple();
    assert_eq!(
        b58decode(b"he11owor1d", &a).unwrap(),
        vec![0x60, 0x65, 0xe7, 0x9b, 0xba, 0x2f, 0x78]
    );
}

#[test]
fn encode_check_known_vector() {
    let a = Alphabet::bitcoin();
    let payload = [0x60, 0x65, 0xe7, 0x9b, 0xba, 0x2f, 0x78];
    assert_eq!(b58encode_check(&payload, &a, None), b"QuT57JNzzWTu7mW".to_vec());
}

#[test]
fn decode_check_known_vector() {
    let a = Alphabet::bitcoin();
    assert_eq!(b58decode_check(b"PWEu9GGN", &a, None).unwrap(), b"-1".to_vec());
}

#[test]
fn empty_input_encodes_to_empty_output() {
    let a = Alphabet::bitcoin();
    assert_eq!(b58encode(&[], &a), Vec::<u8>::new());
    assert_eq!(b58decode(b"", &a).unwrap(), Vec::<u8>::new());
}

#[test]
fn all_zero_input_keeps_length() {
    let a = Alphabet::bitcoin();
    assert_eq!(b58encode(&[0, 0, 0, 0], &a), b"1111".to_vec());
    assert_eq!(b58decode(b"1111", &a).unwrap(), vec![0, 0, 0, 0]);
}

#[test]
fn round_trip_all_payloads_all_alphabets() {
    for a in alphabets() {
        for p in sample_payloads() {
            let enc = b58encode(&p, &a);
            assert_eq!(b58decode(&enc, &a).unwrap(), p);
        }
    }
}

#[test]
fn checked_round_trip_all_payloads_versions() {
    for a in alphabets() {
        for p in sample_payloads() {
            for ver in [None, Some(0u8), Some(1), Some(42), Some(255)] {
                let enc = b58encode_check(&p, &a, ver);
                assert_eq!(b58decode_check(&enc, &a, ver).unwrap(), p, "ver {ver:?}");
            }
        }
    }
}

#[test]
fn invalid_character_reports_first_position() {
    let a = Alphabet::bitcoin();
    // '0' and 'O' are not Bitcoin symbols; the earlier one must be named.
    let r = b58decode(b"he0lO", &a);
    assert_eq!(r.unwrap_err(), DecodeError::InvalidCharacter { position: 2, byte: b'0' });
}

#[test]
fn invalid_character_at_start() {
    let a = Alphabet::bitcoin();
    let r = b58decode(b"I11", &a);
    assert_eq!(r.unwrap_err(), DecodeError::InvalidCharacter { position: 0, byte: b'I' });
}

#[test]
fn decode_check_too_short() {
    let a = Alphabet::bitcoin();
    // "111" decodes to three zero bytes, fewer than the four-byte checksum.
    let r = b58decode_check(b"111", &a, None);
    assert_eq!(r.unwrap_err(), DecodeError::BufferTooShort { actual: 3, required: 4 });
}

#[test]
fn decode_check_too_short_with_version() {
    let a = Alphabet::bitcoin();
    // Four decoded bytes are enough without a version but not with one.
    let r = b58decode_check(b"1111", &a, Some(7));
    assert_eq!(r.unwrap_err(), DecodeError::BufferTooShort { actual: 4, required: 5 });
}

#[test]
fn decode_check_checksum_mismatch() {
    let a = Alphabet::bitcoin();
    // Five zero bytes: body [0], claimed checksum [0, 0, 0, 0].
    let r = b58decode_check(b"11111", &a, None);
    match r.unwrap_err() {
        DecodeError::ChecksumMismatch { expected, actual } => {
            assert_eq!(actual, [0, 0, 0, 0]);
            assert_ne!(expected, [0, 0, 0, 0]);
        }
        other => panic!("expected ChecksumMismatch, got {other:?}"),
    }
}

#[test]
fn decode_check_version_mismatch() {
    let a = Alphabet::bitcoin();
    let enc = b58encode_check(b"payload", &a, Some(1));
    let r = b58decode_check(&enc, &a, Some(2));
    assert_eq!(r.unwrap_err(), DecodeError::VersionMismatch { expected: 2, actual: 1 });
}

#[test]
fn tampering_any_symbol_is_detected() {
    let a = Alphabet::bitcoin();
    let enc = b58encode_check(b"tamper-evident", &a, Some(0));
    for pos in 0..enc.len() {
        for replacement in [b'1', b'2', b'z', b'Q'] {
            if enc[pos] == replacement {
                continue;
            }
            let mut broken = enc.clone();
            broken[pos] = replacement;
            assert!(
                b58decode_check(&broken, &a, Some(0)).is_err(),
                "flip at {pos} to {replacement} went unnoticed"
            );
        }
    }
}

#[test]
fn symbols_outside_alphabet_rejected_in_checked_decode() {
    let a = Alphabet::bitcoin();
    let r = b58decode_check(b"PWEu9GG!", &a, None);
    assert_eq!(r.unwrap_err(), DecodeError::InvalidCharacter { position: 7, byte: b'!' });
}

#[test]
fn matches_reference_implementation_plain() {
    let pairs = [
        (Alphabet::bitcoin(), bs58::Alphabet::BITCOIN),
        (Alphabet::ripple(), bs58::Alphabet::RIPPLE),
        (Alphabet::flickr(), bs58::Alphabet::FLICKR),
    ];
    for (ours, theirs) in &pairs {
        for p in sample_payloads() {
            let enc = b58encode(&p, ours);
            let reference = bs58::encode(&p).with_alphabet(theirs).into_vec();
            assert_eq!(enc, reference);
            let dec = b58decode(&enc, ours).unwrap();
            let reference_dec = bs58::decode(&enc).with_alphabet(theirs).into_vec().unwrap();
            assert_eq!(dec, reference_dec);
        }
    }
}

#[test]
fn matches_reference_implementation_checked() {
    let ours = Alphabet::bitcoin();
    let theirs = bs58::Alphabet::BITCOIN;
    for p in sample_payloads() {
        let enc = b58encode_check(&p, &ours, None);
        let reference = bs58::encode(&p).with_alphabet(theirs).with_check().into_vec();
        assert_eq!(enc, reference);
        assert_eq!(b58decode_check(&enc, &ours, None).unwrap(), p);

        let enc_v = b58encode_check(&p, &ours, Some(9));
        let reference_v = bs58::encode(&p).with_alphabet(theirs).with_check_version(9).into_vec();
        assert_eq!(enc_v, reference_v);
        // The reference keeps the version byte in its decoded output; this
        // library strips it once verified.
        let reference_dec = bs58::decode(&enc_v)
            .with_alphabet(theirs)
            .with_check(Some(9))
            .into_vec()
            .unwrap();
        assert_eq!(b58decode_check(&enc_v, &ours, Some(9)).unwrap(), reference_dec[1..].to_vec());
    }
}

#[test]
fn custom_alphabet_example() {
    // The Ripple decoding of "he11owor1d", re-encoded under a custom table.
    let alpha =
        Alphabet::new(b" !\"#$%&'()*+,-./0123456789:;<=>?@ABCDEFGHIJKLMNOPQRSTUVWXY").unwrap();
    let decoded = b58decode(b"he11owor1d", &Alphabet::ripple()).unwrap();
    assert_eq!(b58encode(&decoded, &alpha), b"#ERRN)N RD".to_vec());
}

#[test]
fn default_alphabet_is_bitcoin() {
    let d: Alphabet = Default::default();
    assert_eq!(d.symbols, Alphabet::bitcoin().symbols);
    assert_eq!(d.symbols, BITCOIN_CHARS.to_vec());
}

#[test]
fn monero_preset_matches_reference() {
    let p: Vec<u8> = (0u8..100).collect();
    let ours = b58encode(&p, &Alphabet::monero());
    let reference = bs58::encode(&p).with_alphabet(bs58::Alphabet::MONERO).into_vec();
    assert_eq!(ours, reference);
}
