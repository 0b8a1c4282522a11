use hashgoblin::cancel::CancelFlag;
use hashgoblin::hashing::{hash_file, new_hasher, HashType, Hashed};

fn hex_of(alg: HashType, data: &[u8]) -> String {
    let mut hasher = new_hasher(&alg);
    let flag = CancelFlag::new();
    match hash_file(&data.to_vec(), &mut hasher, &flag) {
        Hashed::Value(v) => v,
        Hashed::Canceled => panic!("not canceled"),
    }
}

#[test]
fn md5_of_hello() {
    assert_eq!(hex_of(HashType::Md5, b"hello"), "5d41402abc4b2a76b9719d911017c592");
}

#[test]
fn sha1_of_hello() {
    assert_eq!(hex_of(HashType::Sha1, b"hello"), "aaf4c61ddcc5e8a2dabede0f3b482cd9aea9434d");
}

#[test]
fn sha256_of_hello() {
    assert_eq!(
        hex_of(HashType::Sha256, b"hello"),
        "2cf24dba5fb0a30e26e83b2ac5b9e29e1b161e5c1fa7425e73043362938b9824"
    );
}

#[test]
fn tiger_of_empty() {
    assert_eq!(
        hex_of(HashType::Tiger, b""),
        "3293ac630c13f0245f92bbb1766e16167a4e58492dde73f3"
    );
}

#[test]
fn whirlpool_of_empty() {
    assert_eq!(
        hex_of(HashType::Whirlpool, b""),
        "19fa61d75522a4669b44e39c1d2e1726c530232130d407f89afee0964997f7a73e83be698b288febcf88e3e03c4f0757ea8964e59b63d93708b138cc42a66eb3"
    );
}

#[test]
fn canceled_hashing_yields_no_value() {
    let mut hasher = new_hasher(&HashType::Md5);
    let mut flag = CancelFlag::new();
    hashgoblin::cancel::cancel(&mut flag);
    assert!(matches!(
        hash_file(&b"hello".to_vec(), &mut hasher, &flag),
        Hashed::Canceled
    ));
}

#[test]
fn tokens_round_trip() {
    for alg in [
        HashType::Md5,
        HashType::Sha256,
        HashType::Sha1,
        HashType::Tiger,
        HashType::Whirlpool,
    ] {
        assert_eq!(HashType::from_str(alg.as_str()), Ok(alg));
    }
}

#[test]
fn token_parse_is_case_insensitive() {
    assert_eq!(HashType::from_str("SHA256"), Ok(HashType::Sha256));
    assert_eq!(HashType::from_str("Md5"), Ok(HashType::Md5));
    assert_eq!(HashType::from_str("WHIRLPOOL"), Ok(HashType::Whirlpool));
}

#[test]
fn unknown_token_is_reported() {
    let err = HashType::from_str("crc32").unwrap_err();
    assert_eq!(
        err,
        "invalid hash: crc32, possible options are: sha256, tiger, whirlpool, sha1, md5"
    );
}
