//! Sizes of the buffers that the cryptographic primitives work on, the
//! checks that guard each call into them, and the keys that are plain
//! random bytes.

use vstd::prelude::*;

verus! {

/// Bytes in a key for sealing.
pub const SECRETBOX_KEYBYTES: usize = 32;

/// Bytes that sealing adds in front of a plaintext.
pub const SECRETBOX_HEADERBYTES: usize = 36;

/// Bytes in a digest of the usual length.
pub const HASH_BYTES: usize = 32;

/// The shortest digest that can be asked for.
pub const HASH_BYTES_MIN: usize = 16;

/// The longest digest that can be asked for.
pub const HASH_BYTES_MAX: usize = 65535;

/// Bytes in a key for keyed hashing.
pub const HASH_KEYBYTES: usize = 32;

/// Bytes in a public key of the key exchange.
pub const KX_PUBLICKEYBYTES: usize = 32;

/// Bytes in a secret key of the key exchange.
pub const KX_SECRETKEYBYTES: usize = 32;

/// Bytes in a session key.
pub const KX_SESSIONKEYBYTES: usize = 32;

/// Bytes in the first packet of the key exchange.
pub const KX_N_PACKET1BYTES: usize = 48;

/// Bytes in a pre-shared key.
pub const KX_PSKBYTES: usize = 32;

/// The system's random source failed; `code` is what it reported.
#[derive(Debug, PartialEq, Eq, Clone, Copy, Structural)]
pub struct RandomError {
    pub code: u32,
}

/// Calls `getrandom::getrandom`, which fills the whole of `dest` from the
/// operating system's random source or reports an error. Nothing is
/// claimed of the bytes. The slice keeps its length; an empty slice is
/// filled without a call to the system, so that it cannot fail; and the
/// error, which comes back as its numeric code, is never zero.
#[verifier::external_body]
fn os_random(dest: &mut [u8]) -> (r: Result<(), u32>)
    ensures
        final(dest)@.len() == old(dest)@.len(),
        old(dest)@.len() == 0 ==> r is Ok,
        r matches Err(code) ==> code != 0,
{
    match getrandom::getrandom(dest) {
        Ok(()) => Ok(()),
        Err(e) => Err(e.code().get()),
    }
}

/// What a filling is answered with, given what the system's source
/// reported: its code becomes the error.
pub fn random_outcome(reported: Result<(), u32>) -> (r: Result<(), RandomError>)
    ensures
        r == match reported {
            Ok(()) => Ok::<(), RandomError>(()),
            Err(code) => Err(RandomError { code }),
        },
{
    match reported {
        Ok(()) => Ok(()),
        Err(code) => Err(RandomError { code }),
    }
}

/// Fills `buf` with random bytes. An empty buffer is always filled; a
/// failure carries the code, never zero, that the system's source reported.
pub fn random_buf(buf: &mut [u8]) -> (r: Result<(), RandomError>)
    ensures
        final(buf)@.len() == old(buf)@.len(),
        old(buf)@.len() == 0 ==> r is Ok,
        r matches Err(e) ==> e.code != 0,
{
    let reported = os_random(buf);
    random_outcome(reported)
}

/// The buffer, if it was filled, or else the failure to fill it.
pub fn filled(buf: Vec<u8>, outcome: Result<(), RandomError>) -> (r: Result<Vec<u8>, RandomError>)
    ensures
        r == match outcome {
            Ok(()) => Ok::<Vec<u8>, RandomError>(buf),
            Err(e) => Err(e),
        },
{
    match outcome {
        Ok(()) => Ok(buf),
        Err(e) => Err(e),
    }
}

/// `sz` random bytes. No bytes at all are always had; a failure carries
/// the code, never zero, that the system's source reported.
pub fn random(sz: usize) -> (r: Result<Vec<u8>, RandomError>)
    ensures
        r matches Ok(v) ==> v@.len() == sz,
        sz == 0 ==> r is Ok,
        r matches Err(e) ==> e.code != 0,
{
    let mut v: Vec<u8> = vec![0u8; sz];
    let outcome = random_buf(v.as_mut_slice());
    filled(v, outcome)
}

/// The key that is made of the thirty-two bytes of `bytes`.
pub fn key_from(bytes: &Vec<u8>) -> (k: [u8; 32])
    requires
        bytes@.len() == 32,
    ensures
        k@ == bytes@,
{
    let mut k = [0u8; 32];
    let mut i: usize = 0;
    while i < 32
        invariant
            i <= 32,
            bytes@.len() == 32,
            forall|j: int| 0 <= j < i ==> k@[j] == bytes@[j],
        decreases 32 - i,
    {
        k[i] = bytes[i];
        i += 1;
    }
    assert(k@ =~= bytes@);
    k
}

/// Thirty-two random bytes, as every key here is made of. A failure
/// carries the code, never zero, that the system's source reported.
fn random_key() -> (r: Result<[u8; 32], RandomError>)
    ensures
        r matches Err(e) ==> e.code != 0,
{
    match random(32) {
        Ok(v) => Ok(key_from(&v)),
        Err(e) => Err(e),
    }
}

/// A fresh pre-shared key for the key exchange. A failure carries the
/// code, never zero, that the system's source reported.
pub fn kx_psk_keygen() -> (r: Result<[u8; KX_PSKBYTES], RandomError>)
    ensures
        r matches Err(e) ==> e.code != 0,
{
    random_key()
}

/// A fresh key for keyed hashing. A failure carries the code, never zero,
/// that the system's source reported.
pub fn hash_keygen() -> (r: Result<[u8; HASH_KEYBYTES], RandomError>)
    ensures
        r matches Err(e) ==> e.code != 0,
{
    random_key()
}

/// A fresh key for sealing. A failure carries the code, never zero, that
/// the system's source reported.
pub fn secretbox_keygen() -> (r: Result<[u8; SECRETBOX_KEYBYTES], RandomError>)
    ensures
        r matches Err(e) ==> e.code != 0,
{
    random_key()
}

/// Whether a buffer of `ct_len` bytes can take the sealed form of a
/// plaintext of `pt_len` bytes, header included.
pub fn secretbox_encrypt_fits(ct_len: usize, pt_len: usize) -> (r: bool)
    ensures
        r == (ct_len >= pt_len + SECRETBOX_HEADERBYTES),
{
    ct_len >= SECRETBOX_HEADERBYTES && ct_len - SECRETBOX_HEADERBYTES >= pt_len
}

/// Whether a sealed text of `ct_len` bytes is long enough to hold a header
/// and a buffer of `pt_len` bytes can take what it opens to.
pub fn secretbox_decrypt_fits(pt_len: usize, ct_len: usize) -> (r: bool)
    ensures
        r == (ct_len >= SECRETBOX_HEADERBYTES && pt_len >= ct_len - SECRETBOX_HEADERBYTES),
{
    ct_len >= SECRETBOX_HEADERBYTES && pt_len >= ct_len - SECRETBOX_HEADERBYTES
}

/// What is to be done with a sealed text of `ct_len` bytes and a buffer of
/// `pt_len` bytes for what it opens to.
#[derive(Debug, Clone, Copy, PartialEq, Eq, Structural)]
pub enum DecryptCheck {
    /// The text is shorter than a header: it is no sealed text, and
    /// opening it fails as opening a forged text does.
    NotSealed,
    /// The buffer cannot take what the text opens to.
    BufferTooSmall,
    /// The text can be handed to the primitive.
    Fits,
}

/// Tells a text that cannot have been sealed from a buffer that is too
/// small for what a sealed text opens to.
pub fn secretbox_decrypt_check(pt_len: usize, ct_len: usize) -> (r: DecryptCheck)
    ensures
        r == if ct_len < SECRETBOX_HEADERBYTES {
            DecryptCheck::NotSealed
        } else if pt_len < ct_len - SECRETBOX_HEADERBYTES {
            DecryptCheck::BufferTooSmall
        } else {
            DecryptCheck::Fits
        },
        r is Fits <==> (ct_len >= SECRETBOX_HEADERBYTES && pt_len >= ct_len
            - SECRETBOX_HEADERBYTES),
{
    if ct_len < SECRETBOX_HEADERBYTES {
        DecryptCheck::NotSealed
    } else if pt_len < ct_len - SECRETBOX_HEADERBYTES {
        DecryptCheck::BufferTooSmall
    } else {
        DecryptCheck::Fits
    }
}

/// Whether a digest of `out_len` bytes can be asked for.
pub fn hash_output_fits(out_len: usize) -> (r: bool)
    ensures
        r == (HASH_BYTES_MIN <= out_len <= HASH_BYTES_MAX),
{
    HASH_BYTES_MIN <= out_len && out_len <= HASH_BYTES_MAX
}

} // verus!
