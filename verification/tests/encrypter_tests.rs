use file_crypter::encrypter::{Encrypter, CHUNK_SIZE, FILE_START_COUNTER};
use sha2::{Digest, Sha224};

/// An in-memory stand-in for the files that the transformer is used on.
struct Files {
    entries: Vec<(String, Vec<u8>)>,
}

impl Files {
    fn new() -> Files {
        Files { entries: Vec::new() }
    }

    fn read(&self, path: &str) -> Option<Vec<u8>> {
        self.entries.iter().find(|e| e.0 == path).map(|e| e.1.clone())
    }

    fn write(&mut self, path: &str, content: Vec<u8>) {
        self.entries.retain(|e| e.0 != path);
        self.entries.push((path.to_string(), content));
    }
}

fn affine_table() -> Vec<u8> {
    let mut t: Vec<u8> = Vec::new();
    for i in 0..256usize {
        t.push(((i * 167 + 13) % 256) as u8);
    }
    t
}

fn identity_table() -> Vec<u8> {
    let mut t: Vec<u8> = Vec::new();
    for i in 0..256usize {
        t.push(i as u8);
    }
    t
}

/// A transformer over the table in the key file, which is created and
/// stored where the file does not exist yet.
fn new_encrypter(files: &mut Files, key: &str) -> Encrypter {
    let stored: Option<Vec<u8>> = files.read(key);
    let enc: Encrypter = Encrypter::new(stored.as_deref());
    files.write(key, enc.sbox().table().to_vec());
    enc
}

/// Encrypts file `src` into file `dest`, one chunk at a time.
fn encrypt_file(enc: &mut Encrypter, files: &mut Files, src: &str, dest: &str) {
    let source: Vec<u8> = files.read(src).unwrap();
    let mut out: Vec<u8> = Vec::new();
    let mut last_byte: u8 = FILE_START_COUNTER;
    for chunk in source.chunks(CHUNK_SIZE) {
        let (bytes, next) = enc.enc(chunk, last_byte);
        assert_eq!(bytes.len(), chunk.len());
        out.extend_from_slice(&bytes);
        last_byte = next;
    }
    files.write(dest, out);
}

/// Decrypts file `src` into file `dest`, one chunk at a time.
fn decrypt_file(enc: &mut Encrypter, files: &mut Files, src: &str, dest: &str) {
    let source: Vec<u8> = files.read(src).unwrap();
    let mut out: Vec<u8> = Vec::new();
    let mut last_byte: u8 = FILE_START_COUNTER;
    for chunk in source.chunks(CHUNK_SIZE) {
        assert!(enc.can_decrypt(chunk, last_byte));
        let (bytes, next) = enc.dec(chunk, last_byte);
        assert_eq!(bytes.len(), chunk.len());
        out.extend_from_slice(&bytes);
        last_byte = next;
    }
    files.write(dest, out);
}

fn sha_hash(files: &Files, file: &str) -> String {
    let content: Vec<u8> = files.read(file).unwrap();
    let mut hasher = Sha224::new();
    for chunk in content.chunks(1024) {
        hasher.update(chunk);
    }
    let digest: Vec<u8> = hasher.finalize().to_vec();
    let mut hex: String = String::new();
    for b in digest.iter() {
        hex.push_str(&format!("{:02x}", b));
    }
    hex
}

/// Source text of a few kilobytes, so that it spans several chunks and the
/// counter wraps many times.
fn program_text() -> Vec<u8> {
    let mut text: String = String::new();
    let mut n: u32 = 0;
    while text.len() < 4500 {
        text.push_str(&format!("fn step_{}(x: u32) -> u32 {{ x.wrapping_mul({}) + {} }}\n", n, n + 3, n));
        n += 1;
    }
    text.into_bytes()
}

#[test]
fn test_encrypter() {
    let mut files: Files = Files::new();
    files.write("sbox.key", affine_table());
    let enc: Encrypter = new_encrypter(&mut files, "sbox.key");
    let test_string = "Hello, world!";
    let (encrypted, _count) = enc.encrypt(test_string, 0);
    for &k in encrypted.iter() {
        assert_ne!(k, test_string.bytes().next().unwrap());
    }
    let (decrypted, _count) = enc.decrypt(&encrypted, 0);
    assert_eq!(test_string, decrypted);
}

#[test]
fn test_files() {
    let mut files: Files = Files::new();
    files.write("src/main.rs", program_text());
    let mut enc: Encrypter = new_encrypter(&mut files, "sbox.key");
    encrypt_file(&mut enc, &mut files, "src/main.rs", "./target/main.rs.enc");
    decrypt_file(&mut enc, &mut files, "./target/main.rs.enc", "./target/main.rs.dec");
    let src_hash: String = sha_hash(&files, "src/main.rs");
    let dest_hash: String = sha_hash(&files, "./target/main.rs.dec");
    assert_eq!(src_hash, dest_hash);
    assert_eq!(src_hash.len(), 56);
    assert_ne!(src_hash, sha_hash(&files, "./target/main.rs.enc"));
    assert_eq!(files.read("src/main.rs"), files.read("./target/main.rs.dec"));
}

#[test]
fn file_of_repeated_word_survives_the_round_trip() {
    let mut files: Files = Files::new();
    files.write("sbox.key", identity_table());
    let mut source: Vec<u8> = Vec::new();
    while source.len() < 5000 {
        source.push(b"systems"[source.len() % 7]);
    }
    assert_eq!(source.len(), 5000);
    files.write("a.txt", source.clone());
    let mut enc: Encrypter = new_encrypter(&mut files, "sbox.key");
    encrypt_file(&mut enc, &mut files, "a.txt", "a.enc");
    decrypt_file(&mut enc, &mut files, "a.enc", "a.dec");
    let encrypted: Vec<u8> = files.read("a.enc").unwrap();
    assert_eq!(encrypted.len(), 5000);
    assert_ne!(encrypted, source);
    assert_eq!(files.read("a.dec").unwrap(), source);
    assert_eq!(files.read("sbox.key").unwrap(), identity_table());
}

#[test]
fn encrypt_gives_the_expected_bytes() {
    let enc: Encrypter = Encrypter::new(Some(&affine_table()));
    let (encrypted, count) = enc.encrypt("Hello, world!", 0);
    let expected: Vec<u8> =
        vec![0x08, 0x44, 0xda, 0x83, 0xdf, 0x91, 0x1a, 0x30, 0x33, 0x87, 0x12, 0x73, 0x75];
    assert_eq!(encrypted, expected);
    assert_eq!(count, 13);
}

#[test]
fn encrypt_with_identity_table_is_xor_with_the_counter() {
    let enc: Encrypter = Encrypter::new(Some(&identity_table()));
    let (encrypted, count) = enc.encrypt("abc", 0);
    assert_eq!(encrypted, vec![b'a', b'b' ^ 1, b'c' ^ 2]);
    assert_eq!(count, 3);
    let (encrypted, count) = enc.encrypt("abc", 254);
    assert_eq!(encrypted, vec![b'a' ^ 254, b'b' ^ 255, b'c']);
    assert_eq!(count, 1);
}

#[test]
fn empty_input_gives_empty_output_and_the_same_counter() {
    let mut enc: Encrypter = Encrypter::new(Some(&affine_table()));
    let (encrypted, count) = enc.encrypt("", 17);
    assert!(encrypted.is_empty());
    assert_eq!(count, 17);
    let (decrypted, count) = enc.decrypt(&Vec::new(), 200);
    assert_eq!(decrypted, "");
    assert_eq!(count, 200);
    let (bytes, count) = enc.enc(&[], 255);
    assert!(bytes.is_empty());
    assert_eq!(count, 255);
    let (bytes, count) = enc.dec(&[], 3);
    assert!(bytes.is_empty());
    assert_eq!(count, 3);
}

#[test]
fn round_trip_from_every_starting_counter() {
    let enc: Encrypter = Encrypter::new(None);
    let text = "The quick brown fox jumps over the lazy dog. 0123456789 ~!@#";
    for k in 0..=255u8 {
        let (encrypted, after_encrypt) = enc.encrypt(text, k);
        assert_eq!(encrypted.len(), text.len());
        assert!(enc.can_decrypt(&encrypted, k));
        let (decrypted, after_decrypt) = enc.decrypt(&encrypted, k);
        assert_eq!(decrypted, text);
        assert_eq!(after_encrypt, after_decrypt);
        assert_eq!(after_encrypt, ((k as usize + text.len()) % 256) as u8);
    }
}

#[test]
fn round_trip_of_every_byte_but_the_last() {
    let mut enc: Encrypter = Encrypter::new(None);
    let plain: Vec<u8> = (0..255u8).collect();
    for k in [0u8, 1, 100, 255] {
        let (encrypted, after_enc) = enc.enc(&plain, k);
        assert!(enc.can_decrypt(&encrypted, k));
        let (decrypted, after_dec) = enc.dec(&encrypted, k);
        assert_eq!(decrypted, plain);
        assert_eq!(after_enc, after_dec);
    }
}

#[test]
fn byte_255_cannot_be_decrypted() {
    let mut enc: Encrypter = Encrypter::new(Some(&affine_table()));
    let (encrypted, _count) = enc.enc(&[1, 2, 255, 4], 9);
    assert_eq!(encrypted.len(), 4);
    assert!(!enc.can_decrypt(&encrypted, 9));
    assert!(enc.can_decrypt(&encrypted[..2], 9));
    assert!(enc.can_decrypt(&encrypted[3..], 12));
    let (head, count) = enc.dec(&encrypted[..2], 9);
    assert_eq!(head, vec![1, 2]);
    assert_eq!(count, 11);
}

#[test]
fn counter_wraps_inside_a_long_buffer() {
    let mut enc: Encrypter = Encrypter::new(Some(&identity_table()));
    let plain: Vec<u8> = vec![0u8; 600];
    let (encrypted, count) = enc.enc(&plain, 250);
    assert_eq!(count, ((250 + 600) % 256) as u8);
    assert_eq!(count, 82);
    for i in 0..600usize {
        assert_eq!(encrypted[i], ((250 + i) % 256) as u8);
    }
    assert_eq!(encrypted[5], 255);
    assert_eq!(encrypted[6], 0);
    assert_eq!(encrypted[7], 1);
    assert_eq!(encrypted[6 + 256], 0);
    let (decrypted, after) = enc.dec(&encrypted, 250);
    assert_eq!(decrypted, plain);
    assert_eq!(after, 82);
}

#[test]
fn mask_repeats_every_256_bytes() {
    let mut enc: Encrypter = Encrypter::new(Some(&affine_table()));
    let plain: Vec<u8> = vec![b'x'; 700];
    let (encrypted, _count) = enc.enc(&plain, 31);
    for i in 0..(700 - 256) {
        assert_eq!(encrypted[i], encrypted[i + 256]);
    }
    assert_ne!(encrypted[0], encrypted[1]);
}

#[test]
fn pieces_give_the_same_as_the_whole() {
    let mut enc: Encrypter = Encrypter::new(None);
    let plain: Vec<u8> = program_text();
    let (whole, whole_count) = enc.enc(&plain, 77);
    for cut in [0usize, 1, 255, 256, 257, 1024, 3000, plain.len()] {
        let (head, mid) = enc.enc(&plain[..cut], 77);
        let (tail, end) = enc.enc(&plain[cut..], mid);
        let mut joined: Vec<u8> = head.clone();
        joined.extend_from_slice(&tail);
        assert_eq!(joined, whole);
        assert_eq!(end, whole_count);
        let (dec_head, dec_mid) = enc.dec(&whole[..cut], 77);
        let (dec_tail, dec_end) = enc.dec(&whole[cut..], dec_mid);
        assert_eq!(dec_head, plain[..cut].to_vec());
        assert_eq!(dec_tail, plain[cut..].to_vec());
        assert_eq!(dec_mid, mid);
        assert_eq!(dec_end, end);
    }
}

#[test]
fn encrypt_and_enc_agree() {
    let mut enc: Encrypter = Encrypter::new(Some(&affine_table()));
    let text = "agreement";
    let (from_text, text_count) = enc.encrypt(text, 5);
    let (from_bytes, bytes_count) = enc.enc(text.as_bytes(), 5);
    assert_eq!(from_text, from_bytes);
    assert_eq!(text_count, bytes_count);
    let (as_text, _count) = enc.decrypt(&from_text, 5);
    let (as_bytes, _count) = enc.dec(&from_bytes, 5);
    assert_eq!(as_text.as_bytes(), &as_bytes[..]);
}

#[test]
fn decrypt_reads_each_byte_as_one_character() {
    let enc: Encrypter = Encrypter::new(Some(&affine_table()));
    let text = "\u{e9}";
    assert_eq!(text.as_bytes(), &[0xc3, 0xa9]);
    let (encrypted, count) = enc.encrypt(text, 0);
    assert_eq!(encrypted.len(), 2);
    assert_eq!(count, 2);
    let (decrypted, _count) = enc.decrypt(&encrypted, 0);
    assert_eq!(decrypted, "\u{c3}\u{a9}");
    assert_eq!(decrypted.chars().count(), 2);
}

#[test]
fn wrong_counter_gives_other_text() {
    let enc: Encrypter = Encrypter::new(Some(&identity_table()));
    let (encrypted, _count) = enc.encrypt("abc", 0);
    assert!(enc.can_decrypt(&encrypted, 1));
    let (decrypted, _count) = enc.decrypt(&encrypted, 1);
    assert_ne!(decrypted, "abc");
    assert_eq!(decrypted.as_bytes(), &[b'a' ^ 1, b'b' ^ 1 ^ 2, b'c' ^ 2 ^ 3]);
}

#[test]
fn new_takes_the_stored_table_or_makes_a_permutation() {
    let enc: Encrypter = Encrypter::new(Some(&affine_table()));
    assert_eq!(enc.sbox().table().to_vec(), affine_table());
    let fresh: Encrypter = Encrypter::new(None);
    let mut sorted: Vec<u8> = fresh.sbox().table().to_vec();
    sorted.sort();
    assert_eq!(sorted, identity_table());
}

#[test]
fn file_constants() {
    assert_eq!(CHUNK_SIZE, 1024);
    assert_eq!(FILE_START_COUNTER, 0);
}
