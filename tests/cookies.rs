use authshot::cipher::{decrypt, fixed_iv_bytes, strip_pkcs7};
use authshot::cookies::{
    cookies_from_pairs, decrypt_records, decrypt_value, make_cookie, make_cookies, select_rows,
    CookieRecord, Cookies,
    StoreRow,
};
use authshot::error::CookieError;
use authshot::key::derive_key;
use crypto::aes;
use crypto::blockmodes::NoPadding;
use crypto::buffer::{BufferResult, ReadBuffer, RefReadBuffer, RefWriteBuffer, WriteBuffer};

const PEANUTS_KEY: [u8; 16] = [
    0xd9, 0xa0, 0x9d, 0x49, 0x9b, 0x4e, 0x1b, 0x74, 0x61, 0xf2, 0x8e, 0x67, 0x97, 0x2c, 0x6d, 0xbd,
];

const TOKEN123_CIPHER: [u8; 16] = [
    0x76, 0x1c, 0x42, 0x39, 0xf2, 0x48, 0xe8, 0x41, 0x3e, 0xe6, 0xf4, 0x90, 0xc4, 0x18, 0xc8, 0x4d,
];

const INVALID_UTF8_CIPHER: [u8; 16] = [
    0xdb, 0x58, 0x74, 0x99, 0xd6, 0x6b, 0x8e, 0x41, 0x27, 0x77, 0x1d, 0xea, 0x85, 0x0e, 0x98, 0x54,
];

fn encrypt(plain: &[u8], key: &[u8], iv: &[u8]) -> Vec<u8> {
    let n = 16 - plain.len() % 16;
    let mut padded = plain.to_vec();
    padded.extend(std::iter::repeat(n as u8).take(n));
    encrypt_raw(&padded, key, iv)
}

fn encrypt_raw(blocks: &[u8], key: &[u8], iv: &[u8]) -> Vec<u8> {
    let mut encryptor = aes::cbc_encryptor(aes::KeySize::KeySize128, key, iv, NoPadding);
    let mut out = vec![0u8; blocks.len()];
    let mut read_buffer = RefReadBuffer::new(blocks);
    let mut write_buffer = RefWriteBuffer::new(&mut out);
    let result = encryptor.encrypt(&mut read_buffer, &mut write_buffer, true).unwrap();
    assert!(matches!(result, BufferResult::BufferUnderflow));
    let written = write_buffer.take_read_buffer().take_remaining().to_vec();
    written
}

fn tagged(body: &[u8]) -> Vec<u8> {
    let mut v = b"v10".to_vec();
    v.extend_from_slice(body);
    v
}

fn row(host: &str, name: &str, encrypted_value: Vec<u8>) -> StoreRow {
    StoreRow { host_key: host.to_string(), name: name.to_string(), encrypted_value }
}

#[test]
fn derive_key_matches_pbkdf2_hmac_sha1() {
    assert_eq!(derive_key(b"peanuts").unwrap(), PEANUTS_KEY.to_vec());
    let empty = [
        0x1c, 0xbe, 0xe8, 0x26, 0xd6, 0x93, 0x83, 0x27, 0xae, 0x90, 0x43, 0xf6, 0x3b, 0xfc, 0x26,
        0xd7,
    ];
    assert_eq!(derive_key(b"").unwrap(), empty.to_vec());
}

#[test]
fn derive_key_is_deterministic() {
    let a = derive_key(b"peanuts").unwrap();
    let b = derive_key(b"peanuts").unwrap();
    assert_eq!(a, b);
    assert_eq!(a.len(), 16);
    let other = derive_key(b"peanutt").unwrap();
    assert_ne!(a, other);
}

#[test]
fn fixed_iv_is_sixteen_spaces() {
    assert_eq!(fixed_iv_bytes(), vec![0x20u8; 16]);
}

#[test]
fn test_encryptor_matches_fixture() {
    let iv = fixed_iv_bytes();
    assert_eq!(encrypt(b"token123", &PEANUTS_KEY, &iv), TOKEN123_CIPHER.to_vec());
    let empty = [
        0x2f, 0xd5, 0xf9, 0x07, 0xbe, 0x11, 0x53, 0x88, 0x08, 0xc3, 0xff, 0xd8, 0x73, 0x8d, 0x85,
        0xbe,
    ];
    assert_eq!(encrypt(b"", &PEANUTS_KEY, &iv), empty.to_vec());
}

#[test]
fn decrypt_known_ciphertext() {
    let iv = fixed_iv_bytes();
    assert_eq!(decrypt(&TOKEN123_CIPHER, &PEANUTS_KEY, &iv).unwrap(), b"token123".to_vec());
}

#[test]
fn decrypt_round_trips() {
    let iv = fixed_iv_bytes();
    let values: [&[u8]; 5] =
        [b"", b"x", b"exactly16bytes!!", b"a somewhat longer cookie value, over two blocks", &[0u8; 40]];
    for v in values {
        let c = encrypt(v, &PEANUTS_KEY, &iv);
        assert_eq!(decrypt(&c, &PEANUTS_KEY, &iv).unwrap(), v.to_vec());
    }
}

#[test]
fn decrypt_with_prefix_left_on_fails_or_garbles() {
    let iv = fixed_iv_bytes();
    let stored = tagged(&TOKEN123_CIPHER);
    match decrypt(&stored, &PEANUTS_KEY, &iv) {
        Err(e) => assert_eq!(e, CookieError::PaddingError),
        Ok(p) => assert_ne!(p, b"token123".to_vec()),
    }
    let key = [7u8; 16];
    let c = encrypt(b"session=abcdef", &key, &iv);
    match decrypt(&tagged(&c), &key, &iv) {
        Err(e) => assert_eq!(e, CookieError::PaddingError),
        Ok(p) => assert_ne!(p, b"session=abcdef".to_vec()),
    }
}

#[test]
fn decrypt_value_strips_tag() {
    let iv = fixed_iv_bytes();
    let v = decrypt_value(&tagged(&TOKEN123_CIPHER), &PEANUTS_KEY, &iv).unwrap();
    assert_eq!(v, "token123");
}

#[test]
fn decrypt_value_short_is_padding_error() {
    let iv = fixed_iv_bytes();
    assert_eq!(decrypt_value(&vec![0x76, 0x31], &PEANUTS_KEY, &iv), Err(CookieError::PaddingError));
}

#[test]
fn decrypt_value_bad_length_is_padding_error() {
    let iv = fixed_iv_bytes();
    let mut body = TOKEN123_CIPHER.to_vec();
    body.pop();
    assert_eq!(decrypt_value(&tagged(&body), &PEANUTS_KEY, &iv), Err(CookieError::PaddingError));
}

#[test]
fn decrypt_value_invalid_utf8_is_encoding_error() {
    let iv = fixed_iv_bytes();
    assert_eq!(
        decrypt_value(&tagged(&INVALID_UTF8_CIPHER), &PEANUTS_KEY, &iv),
        Err(CookieError::EncodingError)
    );
}

#[test]
fn empty_encrypted_value_is_skipped() {
    let records = vec![CookieRecord { name: "gone".to_string(), encrypted_value: vec![] }];
    let cookies = decrypt_records("example.com", &records, &PEANUTS_KEY).unwrap();
    assert_eq!(cookies.into_vec().len(), 0);
    let rows = vec![
        row("example.com", "gone", vec![]),
        row("example.com", "sid", tagged(&TOKEN123_CIPHER)),
    ];
    let cookies = make_cookies("example.com", b"peanuts", &rows).unwrap().into_vec();
    assert_eq!(cookies.len(), 1);
    assert_eq!(cookies[0].name, "sid");
}

#[test]
fn host_filter_is_exact() {
    let rows = vec![
        row("sub.example.com", "sid", tagged(&TOKEN123_CIPHER)),
        row(".example.com", "dot", tagged(&TOKEN123_CIPHER)),
    ];
    assert_eq!(select_rows(&rows, "example.com").len(), 0);
    let cookies = make_cookies("example.com", b"peanuts", &rows).unwrap();
    assert_eq!(cookies.into_vec().len(), 0);
    let picked = select_rows(&rows, "sub.example.com");
    assert_eq!(picked.len(), 1);
    assert_eq!(picked[0].name, "sid");
}

#[test]
fn render_two_cookies() {
    let cs = Cookies::new(vec![
        make_cookie("a".to_string(), "1".to_string(), "example.com".to_string()),
        make_cookie("b".to_string(), "2".to_string(), "example.com".to_string()),
    ]);
    assert_eq!(cs.render(), "a=1,b=2");
}

#[test]
fn render_edge_cases() {
    assert_eq!(Cookies::new(vec![]).render(), "");
    let one = Cookies::new(vec![make_cookie("k".to_string(), "".to_string(), "h".to_string())]);
    assert_eq!(one.render(), "k=");
    let dup = Cookies::new(vec![
        make_cookie("a".to_string(), "1".to_string(), "h".to_string()),
        make_cookie("a".to_string(), "2".to_string(), "h".to_string()),
        make_cookie("c".to_string(), "x=y".to_string(), "h".to_string()),
    ]);
    assert_eq!(dup.render(), "a=1,a=2,c=x=y");
}

#[test]
fn end_to_end_single_cookie() {
    let rows = vec![row("example.com", "sid", tagged(&TOKEN123_CIPHER))];
    let cookies = make_cookies("example.com", b"peanuts", &rows).unwrap().into_vec();
    assert_eq!(cookies.len(), 1);
    assert_eq!(cookies[0].name, "sid");
    assert_eq!(cookies[0].value, "token123");
    assert_eq!(cookies[0].domain, "example.com");
}

#[test]
fn end_to_end_keeps_order_and_duplicates() {
    let iv = fixed_iv_bytes();
    let rows = vec![
        row("example.com", "a", tagged(&encrypt(b"1", &PEANUTS_KEY, &iv))),
        row("other.org", "z", tagged(&encrypt(b"9", &PEANUTS_KEY, &iv))),
        row("example.com", "a", tagged(&encrypt(b"2", &PEANUTS_KEY, &iv))),
    ];
    let cookies = make_cookies("example.com", b"peanuts", &rows).unwrap();
    assert_eq!(cookies.render(), "a=1,a=2");
}

#[test]
fn corrupted_final_block_fails() {
    let iv = fixed_iv_bytes();
    let mut body = encrypt(b"a longer value spanning two blocks", &PEANUTS_KEY, &iv);
    let last = body.len() - 1;
    body[last] ^= 0x5a;
    let rows = vec![
        row("example.com", "ok", tagged(&TOKEN123_CIPHER)),
        row("example.com", "bad", tagged(&body)),
    ];
    let r = make_cookies("example.com", b"peanuts", &rows);
    assert!(matches!(r, Err(CookieError::PaddingError)));
}

#[test]
fn wrong_secret_fails() {
    let rows = vec![row("example.com", "sid", tagged(&TOKEN123_CIPHER))];
    match make_cookies("example.com", b"not the secret", &rows) {
        Err(e) => assert!(e == CookieError::PaddingError || e == CookieError::EncodingError),
        Ok(c) => assert_ne!(c.render(), "sid=token123"),
    }
}

#[test]
fn override_pairs_keep_order_and_host() {
    let pairs = vec![
        ("a".to_string(), "1".to_string()),
        ("b".to_string(), "2".to_string()),
        ("a".to_string(), "3".to_string()),
    ];
    let cs = cookies_from_pairs(pairs, "example.com");
    assert_eq!(cs.render(), "a=1,b=2,a=3");
    let v = cs.into_vec();
    assert_eq!(v.len(), 3);
    assert!(v.iter().all(|c| c.domain == "example.com"));
    assert_eq!(cookies_from_pairs(vec![], "h").render(), "");
}

#[test]
fn final_block_of_spaces_is_padding_error() {
    let iv = fixed_iv_bytes();
    let c = encrypt_raw(&[0x20u8; 16], &PEANUTS_KEY, &iv);
    assert_eq!(c.len(), 16);
    assert_eq!(decrypt(&c, &PEANUTS_KEY, &iv), Err(CookieError::PaddingError));
    let mut two = b"sixteen byte blk".to_vec();
    two.extend_from_slice(&[0x20u8; 16]);
    let c2 = encrypt_raw(&two, &PEANUTS_KEY, &iv);
    assert_eq!(decrypt(&c2, &PEANUTS_KEY, &iv), Err(CookieError::PaddingError));
}

#[test]
fn final_padding_byte_zero_is_padding_error() {
    let iv = fixed_iv_bytes();
    let mut block = [7u8; 16];
    block[15] = 0;
    let c = encrypt_raw(&block, &PEANUTS_KEY, &iv);
    assert_eq!(decrypt(&c, &PEANUTS_KEY, &iv), Err(CookieError::PaddingError));
}

#[test]
fn empty_ciphertext_is_padding_error() {
    let iv = fixed_iv_bytes();
    assert_eq!(decrypt(&[], &PEANUTS_KEY, &iv), Err(CookieError::PaddingError));
    assert_eq!(decrypt_value(&b"v10".to_vec(), &PEANUTS_KEY, &iv), Err(CookieError::PaddingError));
}

#[test]
fn strip_pkcs7_cases() {
    assert_eq!(strip_pkcs7(&vec![b'a', b'b', 2, 2]).unwrap(), vec![b'a', b'b']);
    assert_eq!(strip_pkcs7(&vec![16u8; 16]).unwrap(), Vec::<u8>::new());
    assert_eq!(strip_pkcs7(&vec![b'a', 1, 2]), Err(CookieError::PaddingError));
    assert_eq!(strip_pkcs7(&vec![b'a', 0]), Err(CookieError::PaddingError));
    assert_eq!(strip_pkcs7(&vec![3u8, 3]), Err(CookieError::PaddingError));
    assert_eq!(strip_pkcs7(&vec![17u8; 32]), Err(CookieError::PaddingError));
    assert_eq!(strip_pkcs7(&vec![]), Err(CookieError::PaddingError));
}

#[test]
fn corrupted_middle_row_fails_whole_call() {
    let iv = fixed_iv_bytes();
    let mut body = encrypt(b"second value", &PEANUTS_KEY, &iv);
    let last = body.len() - 1;
    body[last] ^= 0x5a;
    let rows = vec![
        row("example.com", "r1", tagged(&TOKEN123_CIPHER)),
        row("example.com", "r2", tagged(&body)),
        row("example.com", "r3", tagged(&encrypt(b"third", &PEANUTS_KEY, &iv))),
    ];
    assert!(matches!(make_cookies("example.com", b"peanuts", &rows), Err(CookieError::PaddingError)));
}
