pub mod encrypter;
pub mod sbox;
