//! The stream transformer: a substitution table combined with a rotating
//! one-byte position counter.
//!
//! A plaintext byte `p` met at counter `c` becomes
//! `substitute(p) ^ substitute(c)`; a ciphertext byte `e` met at counter `c`
//! becomes `inv_substitute(e ^ substitute(c))`. The counter advances by one
//! after every byte and wraps from 255 to 0. Callers hand the counter that
//! one call returns to the next call, so a stream can be processed in pieces.

use crate::sbox::{
    has_inverse, is_permutation, lemma_inverse_of_substitute, loaded_table, spec_inv_substitute,
    spec_substitute, SBox,
};
use vstd::prelude::*;
use vstd::utf8::{encode_utf8, is_ascii_chars, is_ascii_chars_encode_utf8};

verus! {

/// The number of bytes that a file is read and transformed at a time.
pub const CHUNK_SIZE: usize = 1024;

/// The counter at which the transformation of a file starts.
pub const FILE_START_COUNTER: u8 = 0;

/// The counter after `n` bytes have been processed from counter `start`.
pub open spec fn counter_after(start: u8, n: nat) -> u8 {
    ((start + n) % 256) as u8
}

/// The ciphertext byte for plaintext byte `p` met at counter `c`.
pub open spec fn encrypt_byte(t: Seq<u8>, p: u8, c: u8) -> u8 {
    spec_substitute(t, p as int) ^ spec_substitute(t, c as int)
}

/// The table value that ciphertext byte `e` met at counter `c` stands for.
pub open spec fn unmasked(t: Seq<u8>, e: u8, c: u8) -> u8 {
    e ^ spec_substitute(t, c as int)
}

/// The plaintext byte for ciphertext byte `e` met at counter `c`.
/// Meaningful only where `has_inverse(t, unmasked(t, e, c))`.
pub open spec fn decrypt_byte(t: Seq<u8>, e: u8, c: u8) -> u8 {
    spec_inv_substitute(t, unmasked(t, e, c))
}

/// The ciphertext of `plain` when its first byte is met at counter `start`.
pub open spec fn encrypt_seq(t: Seq<u8>, plain: Seq<u8>, start: u8) -> Seq<u8> {
    Seq::new(plain.len(), |i: int| encrypt_byte(t, plain[i], counter_after(start, i as nat)))
}

/// Byte `i` of `cipher`, whose first byte is met at counter `start`, can be
/// turned back: inverse lookup has an answer for it.
pub open spec fn decodable_at(t: Seq<u8>, cipher: Seq<u8>, start: u8, i: int) -> bool {
    has_inverse(t, unmasked(t, cipher[i], counter_after(start, i as nat)))
}

/// Every byte of `cipher`, its first byte met at counter `start`, can be
/// turned back.
pub open spec fn decodable(t: Seq<u8>, cipher: Seq<u8>, start: u8) -> bool {
    forall|i: int| 0 <= i < cipher.len() ==> #[trigger] decodable_at(t, cipher, start, i)
}

/// The plaintext of `cipher` when its first byte is met at counter `start`.
/// Meaningful only where `decodable(t, cipher, start)`.
pub open spec fn decrypt_seq(t: Seq<u8>, cipher: Seq<u8>, start: u8) -> Seq<u8> {
    Seq::new(cipher.len(), |i: int| decrypt_byte(t, cipher[i], counter_after(start, i as nat)))
}

/// Bytes read as text, one character per byte: byte `b` is the character
/// with code point `b`.
pub open spec fn bytes_as_text(bytes: Seq<u8>) -> Seq<char> {
    Seq::new(bytes.len(), |i: int| bytes[i] as char)
}

/// The counter wraps from 255 to 0, advances one step at a time, and is
/// back where it was after 256 bytes.
pub proof fn lemma_counter_wraps(start: u8, n: nat)
    ensures
        counter_after(255, 1) == 0,
        counter_after(start, 0) == start,
        counter_after(counter_after(start, n), 1) == counter_after(start, n + 1),
        counter_after(start, n + 256) == counter_after(start, n),
{
}

/// A stream may be processed in pieces: transforming `head` and then `tail`,
/// the second from the counter that the first ended with, gives the same
/// bytes and the same final counter as transforming `head + tail` in one go.
/// This holds for encryption, for decryption, and for whether the input can
/// be decrypted at all.
pub proof fn lemma_pieces_compose(t: Seq<u8>, head: Seq<u8>, tail: Seq<u8>, start: u8)
    ensures
        encrypt_seq(t, head + tail, start) == encrypt_seq(t, head, start) + encrypt_seq(
            t,
            tail,
            counter_after(start, head.len()),
        ),
        decrypt_seq(t, head + tail, start) == decrypt_seq(t, head, start) + decrypt_seq(
            t,
            tail,
            counter_after(start, head.len()),
        ),
        decodable(t, head + tail, start) <==> decodable(t, head, start) && decodable(
            t,
            tail,
            counter_after(start, head.len()),
        ),
        counter_after(start, (head + tail).len()) == counter_after(
            counter_after(start, head.len()),
            tail.len(),
        ),
{
    let whole = head + tail;
    let mid = counter_after(start, head.len());
    assert forall|i: int| 0 <= i < tail.len() implies counter_after(mid, i as nat)
        == counter_after(start, (head.len() + i) as nat) && whole[head.len() + i] == tail[i] by {}
    assert forall|i: int| 0 <= i < head.len() implies whole[i] == head[i] by {}
    assert(encrypt_seq(t, whole, start) =~= encrypt_seq(t, head, start) + encrypt_seq(
        t,
        tail,
        mid,
    ));
    assert(decrypt_seq(t, whole, start) =~= decrypt_seq(t, head, start) + decrypt_seq(
        t,
        tail,
        mid,
    ));
    if decodable(t, whole, start) {
        assert forall|i: int| 0 <= i < head.len() implies decodable_at(t, head, start, i) by {
            assert(decodable_at(t, whole, start, i));
        }
        assert forall|i: int| 0 <= i < tail.len() implies decodable_at(t, tail, mid, i) by {
            assert(decodable_at(t, whole, start, head.len() + i));
        }
    }
    if decodable(t, head, start) && decodable(t, tail, mid) {
        assert forall|i: int| 0 <= i < whole.len() implies decodable_at(t, whole, start, i) by {
            if i < head.len() {
                assert(decodable_at(t, head, start, i));
            } else {
                assert(decodable_at(t, tail, mid, i - head.len()));
            }
        }
    }
}

/// Decryption undoes encryption. For a permutation `t`, any starting
/// counter, and any plaintext in which the byte 255 does not occur, the
/// ciphertext can be decrypted, decrypting it from the same counter gives
/// the plaintext back, and both directions end at the same counter.
///
/// The byte 255 is left out because inverse lookup never searches the last
/// slot of the table: a ciphertext byte that stands for 255 cannot be
/// turned back.
pub proof fn lemma_round_trip(t: Seq<u8>, plain: Seq<u8>, start: u8)
    requires
        is_permutation(t),
        forall|i: int| 0 <= i < plain.len() ==> plain[i] != 255,
    ensures
        decodable(t, encrypt_seq(t, plain, start), start),
        decrypt_seq(t, encrypt_seq(t, plain, start), start) == plain,
        counter_after(start, encrypt_seq(t, plain, start).len()) == counter_after(
            start,
            plain.len(),
        ),
{
    let cipher = encrypt_seq(t, plain, start);
    assert forall|i: int| 0 <= i < plain.len() implies decodable_at(t, cipher, start, i)
        && decrypt_byte(t, cipher[i], counter_after(start, i as nat)) == plain[i] by {
        let p = plain[i];
        let c = counter_after(start, i as nat);
        lemma_unmask_encrypted(t, p, c);
        lemma_inverse_of_substitute(t, p as int);
    }
    assert(decrypt_seq(t, cipher, start) =~= plain);
}

/// Removing the mask from an encrypted byte leaves the substituted byte.
pub proof fn lemma_unmask_encrypted(t: Seq<u8>, p: u8, c: u8)
    ensures
        unmasked(t, encrypt_byte(t, p, c), c) == spec_substitute(t, p as int),
{
    let a = spec_substitute(t, p as int);
    let b = spec_substitute(t, c as int);
    assert((a ^ b) ^ b == a) by (bit_vector);
}

/// Decryption undoes encryption of text. For a permutation `t`, any
/// starting counter, and any text made of ASCII characters, decrypting the
/// ciphertext of the text gives the text back.
///
/// Text with other characters is left out: it is encrypted as its UTF-8
/// bytes, and decryption reads every byte as one character.
pub proof fn lemma_text_round_trip(t: Seq<u8>, text: Seq<char>, start: u8)
    requires
        is_permutation(t),
        is_ascii_chars(text),
    ensures
        decodable(t, encrypt_seq(t, encode_utf8(text), start), start),
        bytes_as_text(decrypt_seq(t, encrypt_seq(t, encode_utf8(text), start), start)) == text,
{
    let bytes = encode_utf8(text);
    is_ascii_chars_encode_utf8(text);
    assert forall|i: int| 0 <= i < bytes.len() implies bytes[i] != 255 by {
        assert(text[i] as u8 == bytes[i]);
    }
    lemma_round_trip(t, bytes, start);
    assert forall|i: int| 0 <= i < text.len() implies bytes[i] as char == text[i] by {
        assert(text[i] as u8 == bytes[i]);
    }
    assert(bytes_as_text(bytes) =~= text);
}

/// `String::push` appends the character to the end of the string.
pub assume_specification[ String::push ](s: &mut String, ch: char)
    ensures
        final(s)@ == old(s)@.push(ch),
;

pub struct Encrypter {
    sbox: SBox,
}

impl View for Encrypter {
    type V = Seq<u8>;

    closed spec fn view(&self) -> Seq<u8> {
        self.sbox@
    }
}

impl Encrypter {
    /// A transformer over the table that `SBox::initiate` builds from
    /// `stored`: the stored table as it is, or a fresh permutation where
    /// there is none.
    pub fn new(stored: Option<&[u8]>) -> (r: Encrypter)
        ensures
            r@.len() == 256,
            stored matches Some(bytes) ==> r@ == loaded_table(bytes@),
            stored is None ==> is_permutation(r@),
    {
        Encrypter { sbox: SBox::initiate(stored) }
    }

    /// The table that this transformer works with.
    pub fn sbox(&self) -> (r: &SBox)
        ensures
            r@ == self@,
    {
        &self.sbox
    }

    /// The counter that follows `counter`: one more, and 0 after 255.
    fn next(counter: u8) -> (r: u8)
        ensures
            r == counter_after(counter, 1),
    {
        if counter == 255 {
            0
        } else {
            counter + 1
        }
    }

    /// Encrypts `input` byte by byte, starting at counter `cur`.
    fn encrypt_bytes(&self, input: &[u8], cur: u8) -> (r: (Vec<u8>, u8))
        ensures
            r.0@ == encrypt_seq(self@, input@, cur),
            r.1 == counter_after(cur, input@.len()),
    {
        let mut encrypted: Vec<u8> = Vec::new();
        let mut last_byte: u8 = cur;
        let mut i: usize = 0;
        while i < input.len()
            invariant
                i <= input@.len(),
                last_byte == counter_after(cur, i as nat),
                encrypted@ == encrypt_seq(self@, input@.take(i as int), cur),
            decreases input@.len() - i,
        {
            let tmp: u8 = self.sbox.substitute(input[i] as usize);
            let sub: u8 = tmp ^ self.sbox.substitute(last_byte as usize);
            encrypted.push(sub);
            last_byte = Self::next(last_byte);
            i += 1;
            assert(encrypted@ =~= encrypt_seq(self@, input@.take(i as int), cur));
        }
        assert(input@.take(i as int) =~= input@);
        (encrypted, last_byte)
    }

    /// Decrypts `input` byte by byte, starting at counter `cur`.
    fn decrypt_bytes(&self, input: &[u8], cur: u8) -> (r: (Vec<u8>, u8))
        requires
            decodable(self@, input@, cur),
        ensures
            r.0@ == decrypt_seq(self@, input@, cur),
            r.1 == counter_after(cur, input@.len()),
    {
        let mut decrypted: Vec<u8> = Vec::new();
        let mut last_byte: u8 = cur;
        let mut i: usize = 0;
        while i < input.len()
            invariant
                i <= input@.len(),
                decodable(self@, input@, cur),
                last_byte == counter_after(cur, i as nat),
                decrypted@ == decrypt_seq(self@, input@.take(i as int), cur),
            decreases input@.len() - i,
        {
            let tmp: u8 = input[i] ^ self.sbox.substitute(last_byte as usize);
            assert(decodable_at(self@, input@, cur, i as int));
            let sub: u8 = self.sbox.inv_substitute(tmp);
            decrypted.push(sub);
            last_byte = Self::next(last_byte);
            i += 1;
            assert(decrypted@ =~= decrypt_seq(self@, input@.take(i as int), cur));
        }
        assert(input@.take(i as int) =~= input@);
        (decrypted, last_byte)
    }

    /// Whether every byte of `input`, its first byte met at counter `cur`,
    /// can be turned back. `decrypt` and `dec` accept exactly such input.
    pub fn can_decrypt(&self, input: &[u8], cur: u8) -> (r: bool)
        ensures
            r == decodable(self@, input@, cur),
    {
        let mut last_byte: u8 = cur;
        let mut i: usize = 0;
        while i < input.len()
            invariant
                i <= input@.len(),
                last_byte == counter_after(cur, i as nat),
                forall|j: int| 0 <= j < i ==> decodable_at(self@, input@, cur, j),
            decreases input@.len() - i,
        {
            let tmp: u8 = input[i] ^ self.sbox.substitute(last_byte as usize);
            if !self.sbox.has_inverse(tmp) {
                assert(!decodable_at(self@, input@, cur, i as int));
                return false;
            }
            assert(decodable_at(self@, input@, cur, i as int));
            last_byte = Self::next(last_byte);
            i += 1;
        }
        true
    }

    /// Encrypts the bytes of `input`, the first of them at counter `cur`.
    /// Returns the ciphertext, one byte per input byte, and the counter
    /// for whatever follows.
    pub fn encrypt(&self, input: &str, cur: u8) -> (r: (Vec<u8>, u8))
        ensures
            r.0@ == encrypt_seq(self@, encode_utf8(input@), cur),
            r.1 == counter_after(cur, encode_utf8(input@).len()),
    {
        self.encrypt_bytes(input.as_bytes(), cur)
    }

    /// Decrypts `input`, its first byte at counter `cur`. Returns the
    /// plaintext as text, one character per byte, and the counter for
    /// whatever follows.
    ///
    /// Every byte of `input` must be one that can be turned back; see
    /// `can_decrypt`.
    pub fn decrypt(&self, input: &Vec<u8>, cur: u8) -> (r: (String, u8))
        requires
            decodable(self@, input@, cur),
        ensures
            r.0@ == bytes_as_text(decrypt_seq(self@, input@, cur)),
            r.1 == counter_after(cur, input@.len()),
    {
        let (bytes, last_byte) = self.decrypt_bytes(input.as_slice(), cur);
        let mut decrypted: String = String::new();
        let mut i: usize = 0;
        while i < bytes.len()
            invariant
                i <= bytes@.len(),
                decrypted@ == bytes_as_text(bytes@.take(i as int)),
            decreases bytes@.len() - i,
        {
            decrypted.push(bytes[i] as char);
            i += 1;
            assert(decrypted@ =~= bytes_as_text(bytes@.take(i as int)));
        }
        assert(bytes@.take(i as int) =~= bytes@);
        (decrypted, last_byte)
    }

    /// Encrypts one chunk of a stream, its first byte at counter
    /// `last_byte`. Returns the bytes to write, as many as the chunk holds,
    /// and the counter for the next chunk. The table is left as it was.
    pub fn enc(&mut self, chunk: &[u8], last_byte: u8) -> (r: (Vec<u8>, u8))
        ensures
            final(self)@ == old(self)@,
            r.0@ == encrypt_seq(old(self)@, chunk@, last_byte),
            r.1 == counter_after(last_byte, chunk@.len()),
    {
        self.encrypt_bytes(chunk, last_byte)
    }

    /// Decrypts one chunk of a stream, its first byte at counter
    /// `last_byte`. Returns the bytes to write, as many as the chunk holds,
    /// and the counter for the next chunk. The table is left as it was.
    ///
    /// Every byte of the chunk must be one that can be turned back; see
    /// `can_decrypt`.
    pub fn dec(&mut self, chunk: &[u8], last_byte: u8) -> (r: (Vec<u8>, u8))
        requires
            decodable(old(self)@, chunk@, last_byte),
        ensures
            final(self)@ == old(self)@,
            r.0@ == decrypt_seq(old(self)@, chunk@, last_byte),
            r.1 == counter_after(last_byte, chunk@.len()),
    {
        self.decrypt_bytes(chunk, last_byte)
    }
}

} // verus!
