//! Encryption of stored secrets: AES-256-GCM under a master key.
//!
//! Every seal takes a fresh random nonce. The version of the master key goes in
//! as associated data, so what was sealed under one version does not open under
//! another.

use vstd::prelude::*;

use crate::text;

verus! {

/// Length of an AES-256 key, in bytes.
pub const KEY_LEN: usize = 32;

/// Length of a GCM nonce, in bytes.
pub const NONCE_LEN: usize = 12;

/// Why a text is not base64.
#[derive(Clone, Copy, Debug, PartialEq, Eq, Structural)]
pub enum Base64Error {
    /// A byte outside the alphabet, and where it stands.
    InvalidByte(usize, u8),
    /// So many symbols cannot be.
    InvalidLength(usize),
    /// A last symbol with bits that would be lost, and where it stands.
    InvalidLastSymbol(usize, u8),
    /// Padding that is missing or out of place.
    InvalidPadding,
}

/// Why a secret cannot be sealed or opened, or the master key not be loaded.
#[derive(Debug, PartialEq, Eq)]
pub enum CryptoError {
    KeyLength { expected: usize, got: usize },
    KeyMissing,
    KeyEncoding(Base64Error),
    KeyFile { path: String, message: String },
    KeyVersionMismatch { stored: u32, provider: u32 },
    Decrypt,
    NotUtf8,
}

/// A sealed secret as it is stored.
#[derive(Debug, Clone)]
pub struct Sealed {
    pub ciphertext: Vec<u8>,
    pub nonce: [u8; NONCE_LEN],
    pub key_version: u32,
}

/// A source of master keys that can seal and open secrets.
pub trait KeyProvider: Send + Sync {
    /// Encrypts a secret.
    fn seal(&self, plaintext: &[u8]) -> (r: Result<Sealed, CryptoError>);

    /// Decrypts a secret.
    fn open(&self, sealed: &Sealed) -> (r: Result<Vec<u8>, CryptoError>);
}

// ---------------------------------------------------------------------------
// The cipher
// ---------------------------------------------------------------------------

/// Ciphertext and tag of `msg`: what `Aes256Gcm` encrypts it to.
pub uninterp spec fn gcm_encrypted(
    key: Seq<u8>,
    nonce: Seq<u8>,
    aad: Seq<u8>,
    msg: Seq<u8>,
) -> Seq<u8>;

/// The message that `Aes256Gcm` decrypts `ciphertext` to, or `None` where the
/// tag does not fit.
pub uninterp spec fn gcm_decrypted(
    key: Seq<u8>,
    nonce: Seq<u8>,
    aad: Seq<u8>,
    ciphertext: Seq<u8>,
) -> Option<Seq<u8>>;

/// The bytes that the text decodes to under the standard base64 alphabet.
pub uninterp spec fn base64_decoded(s: Seq<char>) -> Result<Seq<u8>, Base64Error>;

/// The longest message and the longest associated data, in bytes.
pub const GCM_MAX: u64 = 0x10_0000_0000;

/// Calls `aes_gcm::aead::Aead::encrypt` for `Aes256Gcm`. It fails exactly where
/// the message or the associated data is longer than [`GCM_MAX`]. What it gives
/// is what [`gcm_encrypted`] names, and decrypts to the message again.
#[verifier::external_body]
fn gcm_encrypt(key: &[u8; KEY_LEN], nonce: &[u8; NONCE_LEN], aad: &[u8], msg: &[u8]) -> (r: Option<
    Vec<u8>,
>)
    ensures
        match r {
            Some(ct) => {
                &&& msg@.len() <= GCM_MAX && aad@.len() <= GCM_MAX
                &&& ct@ == gcm_encrypted(key@, nonce@, aad@, msg@)
                &&& gcm_decrypted(key@, nonce@, aad@, ct@) == Some(msg@)
            },
            None => msg@.len() > GCM_MAX || aad@.len() > GCM_MAX,
        },
{
    let cipher = <aes_gcm::Aes256Gcm as aes_gcm::KeyInit>::new(&(*key).into());
    let payload = aes_gcm::aead::Payload { msg, aad };
    aes_gcm::aead::Aead::encrypt(&cipher, aes_gcm::Nonce::from_slice(nonce), payload).ok()
}

/// Calls `aes_gcm::aead::Aead::decrypt` for `Aes256Gcm`. What it gives is what
/// [`gcm_decrypted`] names.
#[verifier::external_body]
fn gcm_decrypt(key: &[u8; KEY_LEN], nonce: &[u8; NONCE_LEN], aad: &[u8], ct: &[u8]) -> (r: Option<
    Vec<u8>,
>)
    ensures
        match (r, gcm_decrypted(key@, nonce@, aad@, ct@)) {
            (Some(v), Some(m)) => v@ == m,
            (None, None) => true,
            _ => false,
        },
{
    let cipher = <aes_gcm::Aes256Gcm as aes_gcm::KeyInit>::new(&(*key).into());
    let payload = aes_gcm::aead::Payload { msg: ct, aad };
    aes_gcm::aead::Aead::decrypt(&cipher, aes_gcm::Nonce::from_slice(nonce), payload).ok()
}

/// Calls `rand::RngCore::fill_bytes` on `rand::thread_rng()`. Nothing is claimed
/// of the bytes: they are random.
#[verifier::external_body]
fn random_nonce() -> [u8; NONCE_LEN] {
    let mut nonce = [0u8; NONCE_LEN];
    rand::RngCore::fill_bytes(&mut rand::thread_rng(), &mut nonce);
    nonce
}

/// Calls `base64::Engine::decode` on the `STANDARD` engine. The result is what
/// [`base64_decoded`] names.
#[verifier::external_body]
fn base64_decode(s: &str) -> (r: Result<Vec<u8>, Base64Error>)
    ensures
        match (r, base64_decoded(s@)) {
            (Ok(v), Ok(b)) => v@ == b,
            (Err(e), Err(f)) => e == f,
            _ => false,
        },
{
    match base64::Engine::decode(&base64::engine::general_purpose::STANDARD, s) {
        Ok(v) => Ok(v),
        Err(base64::DecodeError::InvalidByte(i, b)) => Err(Base64Error::InvalidByte(i, b)),
        Err(base64::DecodeError::InvalidLength(n)) => Err(Base64Error::InvalidLength(n)),
        Err(base64::DecodeError::InvalidLastSymbol(i, b)) => {
            Err(Base64Error::InvalidLastSymbol(i, b))
        },
        Err(base64::DecodeError::InvalidPadding) => Err(Base64Error::InvalidPadding),
    }
}

// ---------------------------------------------------------------------------
// A key held in memory
// ---------------------------------------------------------------------------

/// The version of a master key as associated data: four bytes, lowest first.
pub open spec fn version_bytes(v: u32) -> Seq<u8> {
    seq![
        (v % 256) as u8,
        (v / 256 % 256) as u8,
        (v / 65536 % 256) as u8,
        (v / 16777216) as u8,
    ]
}

fn version_aad(v: u32) -> (r: [u8; 4])
    ensures
        r@ == version_bytes(v),
{
    let r = [
        (v % 256) as u8,
        (v / 256 % 256) as u8,
        (v / 65536 % 256) as u8,
        (v / 16777216) as u8,
    ];
    assert(r@ =~= version_bytes(v));
    r
}

/// A master key and its version.
pub struct MasterKey {
    pub key: Seq<u8>,
    pub version: u32,
}

/// What opening a sealed secret gives under `k`.
pub open spec fn opened(k: MasterKey, s: Sealed) -> Result<Seq<u8>, CryptoError> {
    if s.key_version != k.version {
        Err(CryptoError::KeyVersionMismatch { stored: s.key_version, provider: k.version })
    } else {
        match gcm_decrypted(k.key, s.nonce@, version_bytes(s.key_version), s.ciphertext@) {
            Some(m) => Ok(m),
            None => Err(CryptoError::Decrypt),
        }
    }
}

/// `s` is `plaintext` sealed under `k`.
pub open spec fn is_sealed(k: MasterKey, plaintext: Seq<u8>, s: Sealed) -> bool {
    s.key_version == k.version && s.ciphertext@ == gcm_encrypted(
        k.key,
        s.nonce@,
        version_bytes(k.version),
        plaintext,
    )
}

/// The outcome of reading a key file.
pub enum KeyFileRead {
    Read(Vec<u8>),
    Failed { path: String, message: String },
}

/// `b` without the line end that it may end with: one line feed, and one carriage
/// return before it. A last byte that is no line feed is a byte of the key.
pub open spec fn key_bytes(b: Seq<u8>) -> Seq<u8> {
    if b.len() == 0 || b.last() != '\n' as u8 {
        b
    } else if b.len() >= 2 && b[b.len() - 2] == '\r' as u8 {
        b.take(b.len() - 2)
    } else {
        b.drop_last()
    }
}

/// The raw key bytes that the sources give. A key file goes before a base64
/// text; without either there is no key.
pub open spec fn raw_key(file: Option<KeyFileRead>, encoded: Option<Seq<char>>) -> Result<
    Seq<u8>,
    CryptoError,
> {
    match (file, encoded) {
        (Some(KeyFileRead::Read(b)), _) => Ok(key_bytes(b@)),
        (Some(KeyFileRead::Failed { path, message }), _) => Err(
            CryptoError::KeyFile { path, message },
        ),
        (None, Some(s)) => match base64_decoded(text::trimmed(s)) {
            Ok(b) => Ok(b),
            Err(e) => Err(CryptoError::KeyEncoding(e)),
        },
        (None, None) => Err(CryptoError::KeyMissing),
    }
}

/// A master key that is held in memory.
pub struct StaticKeyProvider {
    key: [u8; KEY_LEN],
    version: u32,
}

impl View for StaticKeyProvider {
    type V = MasterKey;

    closed spec fn view(&self) -> MasterKey {
        MasterKey { key: self.key@, version: self.version }
    }
}

impl StaticKeyProvider {
    /// A provider for the given key and version.
    pub fn new(key: [u8; KEY_LEN], version: u32) -> (r: Self)
        ensures
            r@ == (MasterKey { key: key@, version }),
    {
        StaticKeyProvider { key, version }
    }

    /// The version of the master key.
    pub fn version(&self) -> (r: u32)
        ensures
            r == self@.version,
    {
        self.version
    }

    /// The provider that a key file and a base64 text give. The file goes first;
    /// without either there is no provider. The key has version 1.
    pub fn from_sources(file: Option<KeyFileRead>, encoded: Option<String>) -> (r: Result<
        Self,
        CryptoError,
    >)
        ensures
            match raw_key(
                file,
                match encoded {
                    Some(s) => Some(s@),
                    None => None,
                },
            ) {
                Ok(raw) => if raw.len() == KEY_LEN {
                    r matches Ok(k) && k@ == (MasterKey { key: raw, version: 1 })
                } else {
                    r matches Err(CryptoError::KeyLength { expected, got }) && expected == KEY_LEN
                        && got == raw.len()
                },
                Err(e) => r matches Err(f) && f == e,
            },
    {
        let raw = match file {
            Some(KeyFileRead::Read(bytes)) => trim_key_bytes(bytes),
            Some(KeyFileRead::Failed { path, message }) => {
                return Err(CryptoError::KeyFile { path, message });
            },
            None => match encoded {
                Some(s) => {
                    let trimmed = text::trim(s.as_str());
                    match base64_decode(trimmed.as_str()) {
                        Ok(b) => b,
                        Err(e) => {
                            return Err(CryptoError::KeyEncoding(e));
                        },
                    }
                },
                None => {
                    return Err(CryptoError::KeyMissing);
                },
            },
        };
        Self::from_raw(raw, 1)
    }

    /// The provider for raw key bytes, which must be as many as a key has.
    pub fn from_raw(raw: Vec<u8>, version: u32) -> (r: Result<Self, CryptoError>)
        ensures
            if raw@.len() == KEY_LEN {
                r matches Ok(k) && k@ == (MasterKey { key: raw@, version })
            } else {
                r matches Err(CryptoError::KeyLength { expected, got }) && expected == KEY_LEN
                    && got == raw@.len()
            },
    {
        if raw.len() != KEY_LEN {
            return Err(CryptoError::KeyLength { expected: KEY_LEN, got: raw.len() });
        }
        let mut key = [0u8; KEY_LEN];
        let mut i: usize = 0;
        while i < KEY_LEN
            invariant
                i <= KEY_LEN,
                raw@.len() == KEY_LEN,
                forall|j: int| 0 <= j < i ==> key@[j] == raw@[j],
            decreases KEY_LEN - i,
        {
            key[i] = raw[i];
            i = i + 1;
        }
        assert(key@ =~= raw@);
        Ok(Self::new(key, version))
    }

    /// Encrypts a secret under the given nonce.
    pub fn seal_with_nonce(&self, plaintext: &[u8], nonce: [u8; NONCE_LEN]) -> (r: Result<
        Sealed,
        CryptoError,
    >)
        ensures
            match r {
                Ok(s) => {
                    &&& plaintext@.len() <= GCM_MAX
                    &&& s.nonce == nonce
                    &&& is_sealed(self@, plaintext@, s)
                    &&& opened(self@, s) == Ok::<Seq<u8>, CryptoError>(plaintext@)
                },
                Err(e) => plaintext@.len() > GCM_MAX && e == CryptoError::Decrypt,
            },
    {
        let aad = version_aad(self.version);
        match gcm_encrypt(&self.key, &nonce, aad.as_slice(), plaintext) {
            Some(ciphertext) => Ok(Sealed { ciphertext, nonce, key_version: self.version }),
            None => Err(CryptoError::Decrypt),
        }
    }
}

impl KeyProvider for StaticKeyProvider {
    /// Encrypts a secret under a fresh random nonce. It fails only where the
    /// secret is too long for the cipher. What was sealed opens again, under
    /// this key and version, to the secret.
    fn seal(&self, plaintext: &[u8]) -> (r: Result<Sealed, CryptoError>)
        ensures
            match r {
                Ok(s) => {
                    &&& plaintext@.len() <= GCM_MAX
                    &&& is_sealed(self@, plaintext@, s)
                    &&& opened(self@, s) == Ok::<Seq<u8>, CryptoError>(plaintext@)
                },
                Err(e) => plaintext@.len() > GCM_MAX && e == CryptoError::Decrypt,
            },
    {
        self.seal_with_nonce(plaintext, random_nonce())
    }

    /// Decrypts a secret.
    fn open(&self, sealed: &Sealed) -> (r: Result<Vec<u8>, CryptoError>)
        ensures
            match (r, opened(self@, *sealed)) {
                (Ok(v), Ok(m)) => v@ == m,
                (Err(e), Err(f)) => e == f,
                _ => false,
            },
    {
        if sealed.key_version != self.version {
            return Err(
                CryptoError::KeyVersionMismatch {
                    stored: sealed.key_version,
                    provider: self.version,
                },
            );
        }
        let aad = version_aad(sealed.key_version);
        match gcm_decrypt(&self.key, &sealed.nonce, aad.as_slice(), sealed.ciphertext.as_slice()) {
            Some(m) => Ok(m),
            None => Err(CryptoError::Decrypt),
        }
    }
}

/// Drops one line feed, and one carriage return before it, from the end of a
/// key file.
pub fn trim_key_bytes(b: Vec<u8>) -> (r: Vec<u8>)
    ensures
        r@ == key_bytes(b@),
{
    let ghost all = b@;
    let mut b = b;
    if b.len() > 0 && b[b.len() - 1] == '\n' as u8 {
        b.pop();
        if b.len() > 0 && b[b.len() - 1] == '\r' as u8 {
            b.pop();
            assert(b@ =~= all.take(all.len() - 2));
        }
    }
    b
}

/// What was sealed under one version of the master key does not open under
/// another, and the refusal names both.
pub proof fn law_other_version_is_refused(
    k: MasterKey,
    other: MasterKey,
    plaintext: Seq<u8>,
    s: Sealed,
)
    requires
        is_sealed(k, plaintext, s),
        other.version != k.version,
    ensures
        opened(other, s) == Err::<Seq<u8>, CryptoError>(
            CryptoError::KeyVersionMismatch { stored: k.version, provider: other.version },
        ),
{
}

/// Whether a key file ends with a line end makes no difference, and without one
/// no byte is lost. Only a key that itself ends in a line feed needs one, and one
/// that ends in a carriage return needs both bytes of it.
pub proof fn law_line_end_makes_no_difference(b: Seq<u8>)
    ensures
        b.len() == 0 || b.last() != '\n' as u8 ==> key_bytes(b) == b,
        b.len() == 0 || b.last() != '\r' as u8 ==> key_bytes(b.push('\n' as u8)) == b,
        key_bytes(b.push('\r' as u8).push('\n' as u8)) == b,
{
    assert(b.push('\n' as u8).drop_last() =~= b);
    assert(b.push('\r' as u8).push('\n' as u8).take(b.len() as int) =~= b);
}

/// The associated data is the version in four bytes, lowest first: it gives the version
/// back, so that two versions never have the same.
pub proof fn law_version_is_in_its_bytes(v: u32)
    ensures
        version_bytes(v).len() == 4,
        version_bytes(v)[0] + 256 * version_bytes(v)[1] + 65536 * version_bytes(v)[2] + 16777216
            * version_bytes(v)[3] == v,
{
}

/// What opens is what the cipher decrypts under the key, the stored nonce and the
/// stored version, and only under the version that it was sealed with.
pub proof fn law_opening_is_decrypting(k: MasterKey, s: Sealed)
    ensures
        s.key_version != k.version ==> opened(k, s) == Err::<Seq<u8>, CryptoError>(
            CryptoError::KeyVersionMismatch { stored: s.key_version, provider: k.version },
        ),
        s.key_version == k.version ==> match gcm_decrypted(
            k.key,
            s.nonce@,
            version_bytes(k.version),
            s.ciphertext@,
        ) {
            Some(m) => opened(k, s) == Ok::<Seq<u8>, CryptoError>(m),
            None => opened(k, s) == Err::<Seq<u8>, CryptoError>(CryptoError::Decrypt),
        },
{
}

/// What is sealed is what the cipher encrypts under the key, the nonce and the version,
/// and carries that version.
pub proof fn law_sealing_is_encrypting(k: MasterKey, plaintext: Seq<u8>, s: Sealed)
    ensures
        is_sealed(k, plaintext, s) <==> {
            &&& s.key_version == k.version
            &&& s.ciphertext@ == gcm_encrypted(
                k.key,
                s.nonce@,
                version_bytes(k.version),
                plaintext,
            )
        },
{
}

/// A key file goes before a key in base64, whether it could be read or not; blanks
/// around the base64 text do not count; and without either there is no key.
pub proof fn law_where_the_key_comes_from(
    bytes: Vec<u8>,
    path: String,
    message: String,
    encoded: Option<Seq<char>>,
    s: Seq<char>,
)
    ensures
        raw_key(Some(KeyFileRead::Read(bytes)), encoded) == Ok::<Seq<u8>, CryptoError>(
            key_bytes(bytes@),
        ),
        raw_key(Some(KeyFileRead::Failed { path, message }), encoded) == Err::<
            Seq<u8>,
            CryptoError,
        >(CryptoError::KeyFile { path, message }),
        raw_key(None, None) == Err::<Seq<u8>, CryptoError>(CryptoError::KeyMissing),
        match base64_decoded(text::trimmed(s)) {
            Ok(b) => raw_key(None, Some(s)) == Ok::<Seq<u8>, CryptoError>(b),
            Err(e) => raw_key(None, Some(s)) == Err::<Seq<u8>, CryptoError>(
                CryptoError::KeyEncoding(e),
            ),
        },
{
}

} // verus!
