use ghola::digest::sha256_digest;
use ghola::object::ObjectId;
use sha2::{Digest, Sha256};

fn hex(b: &[u8]) -> String {
    b.iter().map(|x| format!("{x:02x}")).collect()
}

#[test]
fn nist_vectors() {
    assert_eq!(
        hex(&sha256_digest(b"")),
        "e3b0c44298fc1c149afbf4c8996fb92427ae41e4649b934ca495991b7852b855"
    );
    assert_eq!(
        hex(&sha256_digest(b"abc")),
        "ba7816bf8f01cfea414140de5dae2223b00361a396177a9cb410ff61f20015ad"
    );
    assert_eq!(
        hex(&sha256_digest(b"abcdbcdecdefdefgefghfghighijhijkijkljklmklmnlmnomnopnopq")),
        "248d6a61d20638b8e5c026930c3e6039a33ce45964ff2167f6ecedd419db06c1"
    );
}

#[test]
fn a_million_a() {
    let data = vec![b'a'; 1_000_000];
    assert_eq!(
        hex(&sha256_digest(&data)),
        "cdc76e5c9914fb9281a1c7e284d73e67f1809a48a497200e046d39ccc7112cd0"
    );
}

#[test]
fn agrees_with_the_sha2_crate_on_every_length_up_to_200() {
    for len in 0..=200usize {
        let data: Vec<u8> = (0..len).map(|i| (i * 31 + 7) as u8).collect();
        let want: [u8; 32] = Sha256::digest(&data).into();
        assert_eq!(sha256_digest(&data), want.to_vec(), "length {len}");
    }
}

#[test]
fn object_ids_are_the_digest_of_the_stored_bytes() {
    let id = ObjectId::of(b"hello");
    let want: [u8; 32] = Sha256::digest(b"hello").into();
    assert_eq!(id.0, want);
}
