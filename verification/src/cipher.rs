//! The header and slot cipher.
//!
//! Both endpoints share a 64-bit key.  The 4-byte datagram header (cycle and
//! timestamp) is scrambled with RC5 over 16-bit words; slots are scrambled in
//! independent 8-byte ECB blocks with RC5 over 32-bit words.  Both variants
//! use 20 rounds and an 8-byte key schedule, with the key laid out
//! little-endian so that both endpoints derive the same schedule regardless
//! of architecture.
//!
//! The cipher scrambles only: integrity is not a goal, and decryption of
//! bytes that were never encrypted still succeeds (and yields garbage).

use vstd::prelude::*;
use cipher::{Array, BlockCipherDecrypt, BlockCipherEncrypt, KeyInit};
use cipher::consts::{U20, U8};
use vstd::bytes::{spec_u32_from_le_bytes, spec_u32_to_le_bytes, spec_u64_from_le_bytes,
    spec_u64_to_le_bytes, lemma_auto_spec_u32_to_from_le_bytes,
    lemma_auto_spec_u64_to_from_le_bytes};
use crate::bytes::{read_u64_at, write_u64_at};

verus! {

/// What RC5-16/20/8 encryption does to a 4-byte header block, as a function
/// of the key and the block (viewed as a little-endian `u32`).
pub uninterp spec fn header_block_encrypt(key: u64, block: u32) -> u32;

/// What RC5-16/20/8 decryption does to a 4-byte header block.
pub uninterp spec fn header_block_decrypt(key: u64, block: u32) -> u32;

/// What RC5-32/20/8 encryption does to one 8-byte slot block, as a function
/// of the key and the block (viewed as a little-endian `u64`).
pub uninterp spec fn slot_block_encrypt(key: u64, block: u64) -> u64;

/// What RC5-32/20/8 decryption does to one 8-byte slot block.
pub uninterp spec fn slot_block_decrypt(key: u64, block: u64) -> u64;

/// Relies on `rc5::RC5::<u16, U20, U8>` (`KeyInit::new` on the key's
/// little-endian bytes, then `BlockCipherEncrypt::encrypt_block`): a pure
/// permutation of the 4-byte block determined by the key alone.
#[verifier::external_body]
fn rc5_header_encrypt(key: u64, block: u32) -> (r: u32)
    ensures
        r == header_block_encrypt(key, block),
{
    let c: rc5::RC5<u16, U20, U8> = rc5::RC5::new(&Array::from(key.to_le_bytes()));
    let mut b = Array::from(block.to_le_bytes());
    c.encrypt_block(&mut b);
    u32::from_le_bytes(b.into())
}

/// Relies on `rc5::RC5::<u16, U20, U8>` (`KeyInit::new`, then
/// `BlockCipherDecrypt::decrypt_block`): the exact inverse of the
/// corresponding encryption, so a block that was encrypted under the same
/// key decrypts to the original value.
#[verifier::external_body]
fn rc5_header_decrypt(key: u64, block: u32) -> (r: u32)
    ensures
        r == header_block_decrypt(key, block),
        forall|p: u32| block == #[trigger] header_block_encrypt(key, p) ==> r == p,
{
    let c: rc5::RC5<u16, U20, U8> = rc5::RC5::new(&Array::from(key.to_le_bytes()));
    let mut b = Array::from(block.to_le_bytes());
    c.decrypt_block(&mut b);
    u32::from_le_bytes(b.into())
}

/// Relies on `rc5::RC5::<u32, U20, U8>` (`KeyInit::new` on the key's
/// little-endian bytes, then `BlockCipherEncrypt::encrypt_block`): a pure
/// permutation of the 8-byte block determined by the key alone.
#[verifier::external_body]
fn rc5_slot_encrypt(key: u64, block: u64) -> (r: u64)
    ensures
        r == slot_block_encrypt(key, block),
{
    let c: rc5::RC5<u32, U20, U8> = rc5::RC5::new(&Array::from(key.to_le_bytes()));
    let mut b = Array::from(block.to_le_bytes());
    c.encrypt_block(&mut b);
    u64::from_le_bytes(b.into())
}

/// Relies on `rc5::RC5::<u32, U20, U8>` (`KeyInit::new`, then
/// `BlockCipherDecrypt::decrypt_block`): the exact inverse of the
/// corresponding encryption, so a block that was encrypted under the same
/// key decrypts to the original value.
#[verifier::external_body]
fn rc5_slot_decrypt(key: u64, block: u64) -> (r: u64)
    ensures
        r == slot_block_decrypt(key, block),
        forall|p: u64| block == #[trigger] slot_block_encrypt(key, p) ==> r == p,
{
    let c: rc5::RC5<u32, U20, U8> = rc5::RC5::new(&Array::from(key.to_le_bytes()));
    let mut b = Array::from(block.to_le_bytes());
    c.decrypt_block(&mut b);
    u64::from_le_bytes(b.into())
}

/// The 4 header bytes after encryption under `key`.
pub open spec fn header_encrypt_bytes(key: u64, b: Seq<u8>) -> Seq<u8> {
    spec_u32_to_le_bytes(header_block_encrypt(key, spec_u32_from_le_bytes(b)))
}

/// The 4 header bytes after decryption under `key`.
pub open spec fn header_decrypt_bytes(key: u64, b: Seq<u8>) -> Seq<u8> {
    spec_u32_to_le_bytes(header_block_decrypt(key, spec_u32_from_le_bytes(b)))
}

/// The 8-byte chunk of `s` starting at `8 * j`, encrypted under `key`.
pub open spec fn slot_chunk_encrypt(key: u64, s: Seq<u8>, j: int) -> Seq<u8> {
    spec_u64_to_le_bytes(slot_block_encrypt(key, spec_u64_from_le_bytes(s.subrange(8 * j, 8 * j + 8))))
}

/// The 8-byte chunk of `s` starting at `8 * j`, decrypted under `key`.
pub open spec fn slot_chunk_decrypt(key: u64, s: Seq<u8>, j: int) -> Seq<u8> {
    spec_u64_to_le_bytes(slot_block_decrypt(key, spec_u64_from_le_bytes(s.subrange(8 * j, 8 * j + 8))))
}

/// A whole slot after encryption under `key`: each 8-byte chunk is
/// independently encrypted in place.
pub open spec fn slot_encrypt_bytes(key: u64, s: Seq<u8>) -> Seq<u8> {
    Seq::new(s.len(), |i: int| slot_chunk_encrypt(key, s, i / 8)[i % 8])
}

/// A whole slot after decryption under `key`.
pub open spec fn slot_decrypt_bytes(key: u64, s: Seq<u8>) -> Seq<u8> {
    Seq::new(s.len(), |i: int| slot_chunk_decrypt(key, s, i / 8)[i % 8])
}

/// A stateless symmetric cipher holding the shared 64-bit session key.
pub struct Cipher {
    key: u64,
}

impl Cipher {
    /// The session key this cipher was constructed with.
    pub closed spec fn spec_key(&self) -> u64 {
        self.key
    }

    pub fn new(key: u64) -> (r: Cipher)
        ensures
            r.spec_key() == key,
    {
        Cipher { key }
    }

    /// Encrypts the 4-byte header block in place.
    pub fn encrypt_header(&self, block: &mut Vec<u8>)
        requires
            old(block)@.len() == 4,
        ensures
            final(block)@ == header_encrypt_bytes(self.spec_key(), old(block)@),
    {
        proof {
            lemma_auto_spec_u32_to_from_le_bytes();
        }
        let v = crate::bytes::read_u32_at(block, 0);
        assert(block@.subrange(0, 4) =~= block@);
        let e = rc5_header_encrypt(self.key, v);
        crate::bytes::write_u32_at(block, 0, e);
    }

    /// Decrypts the 4-byte header block in place: the inverse of
    /// `encrypt_header` under the same key.
    pub fn decrypt_header(&self, block: &mut Vec<u8>)
        requires
            old(block)@.len() == 4,
        ensures
            final(block)@ == header_decrypt_bytes(self.spec_key(), old(block)@),
            forall|p: Seq<u8>|
                p.len() == 4 && old(block)@ == #[trigger] header_encrypt_bytes(self.spec_key(), p)
                    ==> final(block)@ == p,
    {
        proof {
            lemma_auto_spec_u32_to_from_le_bytes();
        }
        let v = crate::bytes::read_u32_at(block, 0);
        assert(block@.subrange(0, 4) =~= block@);
        let d = rc5_header_decrypt(self.key, v);
        crate::bytes::write_u32_at(block, 0, d);
    }

    /// Encrypts a slot in place, one independent 8-byte block at a time.
    pub fn encrypt_slot(&self, block: &mut Vec<u8>)
        requires
            old(block)@.len() % 8 == 0,
        ensures
            final(block)@ == slot_encrypt_bytes(self.spec_key(), old(block)@),
    {
        proof {
            lemma_auto_spec_u64_to_from_le_bytes();
        }
        let n = block.len();
        let mut j: usize = 0;
        while 8 * j < n
            invariant
                n == old(block)@.len(),
                n % 8 == 0,
                block.len() == n,
                8 * j <= n,
                forall|i: int|
                    0 <= i < 8 * j ==> block@[i] == slot_encrypt_bytes(self.spec_key(), old(block)@)[i],
                forall|i: int| 8 * j <= i < n ==> block@[i] == old(block)@[i],
            decreases n - 8 * j,
        {
            proof {
                lemma_auto_spec_u64_to_from_le_bytes();
            }
            assert(block@.subrange(8 * j, 8 * j + 8) =~= old(block)@.subrange(8 * j, 8 * j + 8));
            let v = read_u64_at(block, 8 * j);
            let e = rc5_slot_encrypt(self.key, v);
            write_u64_at(block, 8 * j, e);
            proof {
                let key = self.spec_key();
                let enc = slot_encrypt_bytes(key, old(block)@);
                assert forall|i: int| 8 * j <= i < 8 * j + 8 implies block@[i] == enc[i] by {
                    vstd::arithmetic::div_mod::lemma_fundamental_div_mod_converse(
                        i, 8, j as int, i - 8 * (j as int));
                    assert(block@[i] == spec_u64_to_le_bytes(e)[i - 8 * j]);
                }
            }
            j = j + 1;
        }
        assert(block@ =~= slot_encrypt_bytes(self.spec_key(), old(block)@));
    }

    /// Decrypts a slot in place, one independent 8-byte block at a time:
    /// the inverse of `encrypt_slot` under the same key.
    pub fn decrypt_slot(&self, block: &mut Vec<u8>)
        requires
            old(block)@.len() % 8 == 0,
        ensures
            final(block)@ == slot_decrypt_bytes(self.spec_key(), old(block)@),
            forall|p: Seq<u8>|
                p.len() == old(block)@.len()
                    && old(block)@ == #[trigger] slot_encrypt_bytes(self.spec_key(), p)
                    ==> final(block)@ == p,
    {
        proof {
            lemma_auto_spec_u64_to_from_le_bytes();
        }
        let n = block.len();
        let mut j: usize = 0;
        while 8 * j < n
            invariant
                n == old(block)@.len(),
                n % 8 == 0,
                block.len() == n,
                8 * j <= n,
                forall|i: int|
                    0 <= i < 8 * j ==> block@[i] == slot_decrypt_bytes(self.spec_key(), old(block)@)[i],
                forall|i: int| 8 * j <= i < n ==> block@[i] == old(block)@[i],
                forall|p: Seq<u8>|
                    p.len() == n && old(block)@ == #[trigger] slot_encrypt_bytes(self.spec_key(), p)
                        ==> (forall|i: int| 0 <= i < 8 * j ==> block@[i] == p[i]),
            decreases n - 8 * j,
        {
            proof {
                lemma_auto_spec_u64_to_from_le_bytes();
            }
            assert(block@.subrange(8 * j, 8 * j + 8) =~= old(block)@.subrange(8 * j, 8 * j + 8));
            let v = read_u64_at(block, 8 * j);
            let d = rc5_slot_decrypt(self.key, v);
            write_u64_at(block, 8 * j, d);
            proof {
                let key = self.spec_key();
                let jj = j as int;
                let dec = slot_decrypt_bytes(key, old(block)@);
                assert forall|i: int| 8 * jj <= i < 8 * jj + 8 implies block@[i] == dec[i] by {
                    vstd::arithmetic::div_mod::lemma_fundamental_div_mod_converse(
                        i, 8, jj, i - 8 * jj);
                    assert(block@[i] == spec_u64_to_le_bytes(d)[i - 8 * jj]);
                }
                assert forall|p: Seq<u8>|
                    p.len() == n && old(block)@ == #[trigger] slot_encrypt_bytes(key, p)
                        implies (forall|i: int| 0 <= i < 8 * jj + 8 ==> block@[i] == p[i]) by {
                    let pv = spec_u64_from_le_bytes(p.subrange(8 * jj, 8 * jj + 8));
                    assert forall|k: int| 0 <= k < 8 implies
                        #[trigger] old(block)@.subrange(8 * jj, 8 * jj + 8)[k]
                            == slot_chunk_encrypt(key, p, jj)[k] by {
                        vstd::arithmetic::div_mod::lemma_fundamental_div_mod_converse(
                            8 * jj + k, 8, jj, k);
                        assert(old(block)@[8 * jj + k] == slot_encrypt_bytes(key, p)[8 * jj + k]);
                    }
                    assert(old(block)@.subrange(8 * jj, 8 * jj + 8) =~= slot_chunk_encrypt(key, p, jj));
                    assert(v == slot_block_encrypt(key, pv));
                    assert(d == pv);
                    assert forall|i: int| 8 * jj <= i < 8 * jj + 8 implies block@[i] == p[i] by {
                        assert(block@[i] == spec_u64_to_le_bytes(pv)[i - 8 * jj]);
                        assert(spec_u64_to_le_bytes(pv) == p.subrange(8 * jj, 8 * jj + 8));
                    }
                }
            }
            j = j + 1;
        }
        assert(block@ =~= slot_decrypt_bytes(self.spec_key(), old(block)@));
        assert forall|p: Seq<u8>|
            p.len() == old(block)@.len()
                && old(block)@ == #[trigger] slot_encrypt_bytes(self.spec_key(), p)
                implies block@ == p by {
            assert(block@ =~= p);
        }
    }
}

} // verus!
