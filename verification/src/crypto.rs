//! The cryptographic primitives the store relies on, each behind a trusted
//! wrapper: passphrase wrapping of key material, the encrypted backup stream,
//! random key generation, and UTF-8 decoding of stored bytes.
//!
//! What a sealed container or an encrypted stream opens to is a deterministic
//! function of the passphrase and the bytes — the stream's scrypt work
//! factors are pinned here so that no machine-dependent cap is involved — so
//! those results carry names (`unseal_of`, `stream_open_of`) that the
//! wrappers' contracts speak of. The sealing side is randomized, and its
//! contracts say only that every outcome opens back to what was sealed.
//!
//! A container handed in from outside is held to an admissibility check
//! before the unsealing library sees it: a container whose declared payload
//! length exceeds the container itself can never verify, and the check keeps
//! such (possibly huge) declared lengths away from the library's allocator.

use std::io::{Read, Write};
use vstd::prelude::*;

verus! {

use vstd::utf8::{valid_utf8, decode_utf8};

/// The scrypt work factor (log2 of the cost parameter) of every backup
/// stream this library produces.
pub const BACKUP_STREAM_WORK_FACTOR: u8 = 14;

/// The largest scrypt work factor accepted when decrypting a backup stream.
/// Pinned, so that what a stream decrypts to depends on the passphrase and
/// the bytes alone, never on the machine at hand.
pub const BACKUP_STREAM_MAX_WORK_FACTOR: u8 = 22;

/// Payloads below this size always seal: the authenticated cipher's limit
/// lies far above it.
pub const SEAL_PAYLOAD_BOUND: usize = 0x10000000;

/// What authenticated passphrase-unwrapping returns on an admissible
/// container: the sealed payload, or nothing when the container does not
/// verify under the passphrase.
pub uninterp spec fn unseal_of(password: Seq<u8>, blob: Seq<u8>) -> Option<Seq<u8>>;

/// What decrypting an encrypted stream returns: the plaintext, or nothing
/// when the stream is truncated, tampered with, keyed otherwise, or demands
/// more than the pinned work factor.
pub uninterp spec fn stream_open_of(passphrase: Seq<u8>, data: Seq<u8>) -> Option<Seq<u8>>;

/// The payload length a sealed container declares: the big-endian eight
/// bytes that close its 44-byte header (the 16-byte tag follows, then the
/// payload itself).
pub open spec fn declared_payload_len(blob: Seq<u8>) -> int {
    blob[36] * 0x100000000000000 + blob[37] * 0x1000000000000 + blob[38] * 0x10000000000
        + blob[39] * 0x100000000 + blob[40] * 0x1000000 + blob[41] * 0x10000 + blob[42] * 0x100
        + blob[43]
}

/// A container long enough to hold its header and tag, whose declared
/// payload fits inside it. Every genuinely sealed container is admissible;
/// an inadmissible one can never verify.
pub open spec fn cocoon_admissible(blob: Seq<u8>) -> bool {
    blob.len() >= 60 && declared_payload_len(blob) <= blob.len()
}

/// What opening a container means to this library: the authenticated unwrap
/// on admissible containers, nothing on the rest.
pub open spec fn sealed_open(password: Seq<u8>, blob: Seq<u8>) -> Option<Seq<u8>> {
    if cocoon_admissible(blob) {
        unseal_of(password, blob)
    } else {
        None
    }
}

/// Relies on `cocoon::Cocoon::wrap`: seals `data` under `password` into a
/// self-describing container — the 44-byte header carrying salt, nonce and
/// the payload length, a 16-byte tag, then the payload — which opens back to
/// `data` under the same password (salt and nonce are random, so no more is
/// promised of the bytes). Sealing fails only on payloads beyond the
/// cipher's limit, far above `SEAL_PAYLOAD_BOUND`.
#[verifier::external_body]
pub(crate) fn seal_with_password(password: &Vec<u8>, data: &Vec<u8>) -> (r: Result<Vec<u8>, ()>)
    ensures
        r is Ok ==> cocoon_admissible(r->Ok_0@) && unseal_of(password@, r->Ok_0@) == Some(data@),
        data@.len() < SEAL_PAYLOAD_BOUND ==> r is Ok,
{
    let mut cocoon = cocoon::Cocoon::new(password.as_slice());
    cocoon.wrap(data.as_slice()).map_err(|_| ())
}

/// Relies on `cocoon::Cocoon::unwrap`: deterministic authenticated open of a
/// sealed container; fails exactly when the container does not verify under
/// this password. Admissibility is required because the library trusts the
/// container's declared payload length when sizing its buffers.
#[verifier::external_body]
fn cocoon_unwrap(password: &Vec<u8>, blob: &Vec<u8>) -> (r: Result<Vec<u8>, ()>)
    requires
        cocoon_admissible(blob@),
    ensures
        r is Ok <==> unseal_of(password@, blob@) is Some,
        r is Ok ==> Some(r->Ok_0@) == unseal_of(password@, blob@),
{
    let cocoon = cocoon::Cocoon::new(password.as_slice());
    cocoon.unwrap(blob.as_slice()).map_err(|_| ())
}

/// Whether a container is admissible: long enough, and its declared payload
/// length (big-endian at bytes 36 to 43) no larger than the container.
fn container_admissible(blob: &Vec<u8>) -> (r: bool)
    ensures
        r == cocoon_admissible(blob@),
{
    if blob.len() < 60 {
        return false;
    }
    let d0 = blob[36] as u64;
    let d1 = blob[37] as u64;
    let d2 = blob[38] as u64;
    let d3 = blob[39] as u64;
    let d4 = blob[40] as u64;
    let d5 = blob[41] as u64;
    let d6 = blob[42] as u64;
    let d7 = blob[43] as u64;
    let declared = ((((((d0 * 256 + d1) * 256 + d2) * 256 + d3) * 256 + d4) * 256 + d5) * 256
        + d6) * 256 + d7;
    declared <= blob.len() as u64
}

/// Open a sealed container: an inadmissible container is rejected outright;
/// an admissible one goes to the authenticated unwrap.
pub(crate) fn unseal_with_password(password: &Vec<u8>, blob: &Vec<u8>) -> (r: Result<
    Vec<u8>,
    (),
>)
    ensures
        r is Ok <==> sealed_open(password@, blob@) is Some,
        r is Ok ==> Some(r->Ok_0@) == sealed_open(password@, blob@),
{
    if !container_admissible(blob) {
        return Err(());
    }
    cocoon_unwrap(password, blob)
}

/// Relies on `age::Encryptor::with_recipients` over an scrypt passphrase
/// recipient with the pinned work factor, writing into an in-memory sink:
/// the produced stream decrypts back to the plaintext under the same
/// passphrase (file key and nonces are random, so no more is promised).
#[verifier::external_body]
pub(crate) fn stream_encrypt(passphrase: &Vec<u8>, plaintext: &Vec<u8>) -> (r: Result<
    Vec<u8>,
    (),
>)
    ensures
        r is Ok ==> stream_open_of(passphrase@, r->Ok_0@) == Some(plaintext@),
{
    let secret = age::secrecy::SecretString::from(
        String::from_utf8_lossy(passphrase).into_owned(),
    );
    let mut recipient = age::scrypt::Recipient::new(secret);
    recipient.set_work_factor(BACKUP_STREAM_WORK_FACTOR);
    let encryptor = age::Encryptor::with_recipients(
        std::iter::once(&recipient as &dyn age::Recipient),
    ).map_err(|_| ())?;
    let mut out: Vec<u8> = Vec::new();
    let mut writer = encryptor.wrap_output(&mut out).map_err(|_| ())?;
    writer.write_all(plaintext.as_slice()).map_err(|_| ())?;
    writer.finish().map_err(|_| ())?;
    Ok(out)
}

/// Relies on `age::Decryptor` with an scrypt passphrase identity whose
/// accepted work factor is pinned: deterministic decryption of a whole
/// stream, failing exactly when the stream does not decrypt under this
/// passphrase within the pinned work bound.
#[verifier::external_body]
pub(crate) fn stream_decrypt(passphrase: &Vec<u8>, data: &Vec<u8>) -> (r: Result<Vec<u8>, ()>)
    ensures
        r is Ok <==> stream_open_of(passphrase@, data@) is Some,
        r is Ok ==> Some(r->Ok_0@) == stream_open_of(passphrase@, data@),
{
    let secret = age::secrecy::SecretString::from(
        String::from_utf8_lossy(passphrase).into_owned(),
    );
    let mut identity = age::scrypt::Identity::new(secret);
    identity.set_max_work_factor(BACKUP_STREAM_MAX_WORK_FACTOR);
    let decryptor = age::Decryptor::new(data.as_slice()).map_err(|_| ())?;
    let mut reader = decryptor.decrypt(std::iter::once(&identity as &dyn age::Identity)).map_err(
        |_| (),
    )?;
    let mut out = Vec::new();
    reader.read_to_end(&mut out).map_err(|_| ())?;
    Ok(out)
}

/// Relies on `rand::rngs::OsRng::try_fill_bytes`: 32 bytes from the OS
/// cryptographic generator; nothing is promised of their values.
#[verifier::external_body]
pub(crate) fn generate_key_bytes() -> (r: Result<Vec<u8>, ()>)
    ensures
        r is Ok ==> r->Ok_0@.len() == 32,
{
    let mut bytes = [0u8; 32];
    match rand::TryRngCore::try_fill_bytes(&mut rand::rngs::OsRng, &mut bytes) {
        Ok(()) => Ok(bytes.to_vec()),
        Err(_) => Err(()),
    }
}

/// Relies on `String::from_utf8`: succeeds exactly on valid UTF-8 and decodes
/// it, as `vstd`'s UTF-8 model states.
#[verifier::external_body]
pub(crate) fn bytes_to_string(bytes: Vec<u8>) -> (r: Result<String, ()>)
    ensures
        r is Ok <==> valid_utf8(bytes@),
        r is Ok ==> r->Ok_0@ == decode_utf8(bytes@),
{
    String::from_utf8(bytes).map_err(|_| ())
}

} // verus!
