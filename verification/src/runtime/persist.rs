//! The encrypted container: a password-derived key, an authenticated cipher
//! and a fixed byte layout.
//!
//! The layout is, in this order: a four-byte tag, one byte for the version, a
//! salt of sixteen bytes, a nonce of twelve bytes, and the ciphertext with
//! its authentication tag of sixteen bytes.

use argon2::password_hash::SaltString;
use argon2::{Argon2, PasswordHasher};
use chacha20poly1305::aead::{Aead, KeyInit};
use chacha20poly1305::{ChaCha20Poly1305, Key, Nonce};
use rand::rngs::OsRng;
use rand::Rng;
use vstd::prelude::*;
use vstd::string::StringExecFns;

verus! {

/// The version of the layout.
pub const VERSION: u8 = 1;

/// The length of the salt.
pub const SALT_LEN: usize = 16;

/// The length of the nonce.
pub const NONCE_LEN: usize = 12;

/// The length of what stands before the ciphertext.
pub const HEADER_LEN: usize = 33;

/// The least length of a salt that a key is derived from.
pub const MIN_SALT_LEN: usize = 3;

/// The length of the key.
pub const KEY_LEN: usize = 32;

/// The length of the authentication tag at the end of the ciphertext.
pub const TAG_LEN: usize = 16;

/// Why saving or loading failed.
#[derive(Debug)]
pub enum PersistError {
    /// A file could not be read, written or created.
    Io(String),
    /// The data is not a graph's serialisation.
    Serde(String),
    /// The key could not be derived, or the ciphertext is not authentic under
    /// the key.
    Crypto(String),
    /// The data is no container: too short, a wrong tag or a version that is
    /// not supported.
    Format(String),
}

/// A failure as the contracts see it.
pub enum PersistErrorView {
    Io(Seq<char>),
    Serde(Seq<char>),
    Crypto(Seq<char>),
    Format(Seq<char>),
}

impl View for PersistError {
    type V = PersistErrorView;

    open spec fn view(&self) -> PersistErrorView {
        match self {
            PersistError::Io(text) => PersistErrorView::Io(text@),
            PersistError::Serde(text) => PersistErrorView::Serde(text@),
            PersistError::Crypto(text) => PersistErrorView::Crypto(text@),
            PersistError::Format(text) => PersistErrorView::Format(text@),
        }
    }
}

impl PersistError {
    /// The text that the error carries.
    pub fn message(&self) -> (text: String)
        ensures
            self@ == PersistErrorView::Io(text@) || self@ == PersistErrorView::Serde(text@) || self@
                == PersistErrorView::Crypto(text@) || self@ == PersistErrorView::Format(text@),
    {
        match self {
            PersistError::Io(text) => text.clone(),
            PersistError::Serde(text) => text.clone(),
            PersistError::Crypto(text) => text.clone(),
            PersistError::Format(text) => text.clone(),
        }
    }
}

/// The tag at the start of a container: the letters G, R, P, H.
pub open spec fn magic() -> Seq<u8> {
    seq![0x47u8, 0x52u8, 0x50u8, 0x48u8]
}

/// The bytes of a container with the given salt, nonce and ciphertext.
pub open spec fn container(salt: Seq<u8>, nonce: Seq<u8>, ciphertext: Seq<u8>) -> Seq<u8> {
    magic() + seq![VERSION] + salt + nonce + ciphertext
}

/// The three parts of a container.
pub struct Parts {
    pub salt: Vec<u8>,
    pub nonce: Vec<u8>,
    pub ciphertext: Vec<u8>,
}

/// The parts of a container as the contracts see them.
pub struct PartsView {
    pub salt: Seq<u8>,
    pub nonce: Seq<u8>,
    pub ciphertext: Seq<u8>,
}

impl View for Parts {
    type V = PartsView;

    open spec fn view(&self) -> PartsView {
        PartsView { salt: self.salt@, nonce: self.nonce@, ciphertext: self.ciphertext@ }
    }
}

/// What `data` is as a container: its parts, or why it is none. The length
/// is looked at first, then the tag, then the version.
pub open spec fn parsed(data: Seq<u8>) -> Result<PartsView, PersistErrorView> {
    if data.len() < HEADER_LEN {
        Err(PersistErrorView::Format("file too short"@))
    } else if data.subrange(0, 4) != magic() {
        Err(PersistErrorView::Format("bad magic"@))
    } else if data[4] != VERSION {
        Err(PersistErrorView::Format("unsupported version"@))
    } else {
        Ok(
            PartsView {
                salt: data.subrange(5, 21),
                nonce: data.subrange(21, 33),
                ciphertext: data.subrange(33, data.len() as int),
            },
        )
    }
}

/// The view of a result whose parts have views.
pub open spec fn outcome<A: View, E: View>(r: Result<A, E>) -> Result<A::V, E::V> {
    match r {
        Ok(a) => Ok(a@),
        Err(e) => Err(e@),
    }
}

/// A container of salt, nonce and ciphertext parses into these.
pub proof fn lemma_container_parses(salt: Seq<u8>, nonce: Seq<u8>, ciphertext: Seq<u8>)
    requires
        salt.len() == SALT_LEN,
        nonce.len() == NONCE_LEN,
    ensures
        parsed(container(salt, nonce, ciphertext)) is Ok,
        parsed(container(salt, nonce, ciphertext))->Ok_0 == (PartsView { salt, nonce, ciphertext }),
{
    let data = container(salt, nonce, ciphertext);
    assert(data.subrange(0, 4) =~= magic());
    assert(data[4] == VERSION);
    assert(data.subrange(5, 21) =~= salt);
    assert(data.subrange(21, 33) =~= nonce);
    assert(data.subrange(33, data.len() as int) =~= ciphertext);
}

/// Appends the bytes of `more` to `out`.
fn append(out: &mut Vec<u8>, more: &[u8])
    ensures
        final(out)@ == old(out)@ + more@,
{
    let ghost start = out@;
    let mut i: usize = 0;
    while i < more.len()
        invariant
            i <= more.len(),
            out@ == start + more@.subrange(0, i as int),
        decreases more.len() - i,
    {
        out.push(more[i]);
        assert(out@ =~= start + more@.subrange(0, i + 1));
        i += 1;
    }
    assert(more@.subrange(0, more.len() as int) =~= more@);
}

/// The bytes of `data` from `from` up to `to`.
fn slice_of(data: &[u8], from: usize, to: usize) -> (part: Vec<u8>)
    requires
        from <= to <= data@.len(),
    ensures
        part@ == data@.subrange(from as int, to as int),
{
    let mut part: Vec<u8> = Vec::new();
    let mut i: usize = from;
    while i < to
        invariant
            from <= i <= to <= data@.len(),
            part@ == data@.subrange(from as int, i as int),
        decreases to - i,
    {
        part.push(data[i]);
        assert(part@ =~= data@.subrange(from as int, i + 1));
        i += 1;
    }
    part
}

/// Lays out a container.
pub fn encode_container(salt: &[u8], nonce: &[u8], ciphertext: &[u8]) -> (out: Vec<u8>)
    ensures
        out@ == container(salt@, nonce@, ciphertext@),
{
    let mut out: Vec<u8> = Vec::new();
    out.push(0x47);
    out.push(0x52);
    out.push(0x50);
    out.push(0x48);
    out.push(VERSION);
    assert(out@ =~= magic() + seq![VERSION]);
    append(&mut out, salt);
    append(&mut out, nonce);
    append(&mut out, ciphertext);
    out
}

/// Takes a container apart. Data that is shorter than the header, that
/// starts with another tag or that names another version is rejected, in
/// this order.
pub fn parse_container(data: &[u8]) -> (r: Result<Parts, PersistError>)
    ensures
        outcome(r) == parsed(data@),
{
    if data.len() < HEADER_LEN {
        return Err(PersistError::Format("file too short".to_owned()));
    }
    if data[0] != 0x47 || data[1] != 0x52 || data[2] != 0x50 || data[3] != 0x48 {
        assert(data@.subrange(0, 4)[0] == data@[0]);
        assert(data@.subrange(0, 4)[1] == data@[1]);
        assert(data@.subrange(0, 4)[2] == data@[2]);
        assert(data@.subrange(0, 4)[3] == data@[3]);
        return Err(PersistError::Format("bad magic".to_owned()));
    }
    assert(data@.subrange(0, 4) =~= magic());
    if data[4] != VERSION {
        return Err(PersistError::Format("unsupported version".to_owned()));
    }
    Ok(
        Parts {
            salt: slice_of(data, 5, 21),
            nonce: slice_of(data, 21, 33),
            ciphertext: slice_of(data, 33, data.len()),
        },
    )
}

/// What Argon2 with its default parameters makes of a passphrase and a salt:
/// the hash, no hash, or the text of an error.
pub uninterp spec fn argon2_output(passphrase: Seq<char>, salt: Seq<u8>) -> Result<Option<Seq<u8>>, Seq<char>>;

/// What ChaCha20-Poly1305 makes of a plaintext under a key and a nonce: the
/// ciphertext with its tag, or the text of an error.
pub uninterp spec fn sealed_bytes(key: Seq<u8>, nonce: Seq<u8>, plaintext: Seq<u8>) -> Result<Seq<u8>, Seq<char>>;

/// What ChaCha20-Poly1305 makes of a ciphertext under a key and a nonce: the
/// plaintext, or the text of an error where the ciphertext is not authentic.
pub uninterp spec fn opened_bytes(key: Seq<u8>, nonce: Seq<u8>, ciphertext: Seq<u8>) -> Result<Seq<u8>, Seq<char>>;

/// The cipher opens `ciphertext` to `plaintext` under the key and the nonce.
pub open spec fn opens_to(key: Seq<u8>, nonce: Seq<u8>, ciphertext: Seq<u8>, plaintext: Seq<u8>) -> bool {
    opened_bytes(key, nonce, ciphertext) == Ok::<Seq<u8>, Seq<char>>(plaintext)
}

/// `data` opens to `plaintext` under `passphrase`.
pub open spec fn unlocks(data: Seq<u8>, passphrase: Seq<char>, plaintext: Seq<u8>) -> bool {
    opened_container(data, passphrase) == Ok::<Seq<u8>, PersistErrorView>(plaintext)
}

/// The view of what the hashing returns.
pub open spec fn hash_outcome(r: Result<Option<Vec<u8>>, String>) -> Result<Option<Seq<u8>>, Seq<char>> {
    match r {
        Ok(Some(hash)) => Ok(Some(hash@)),
        Ok(None) => Ok(None),
        Err(text) => Err(text@),
    }
}

/// `rand::Rng::fill` on the operating system's generator: `len` random
/// bytes. Of the bytes nothing is claimed.
#[verifier::external_body]
fn random_bytes(len: usize) -> (bytes: Vec<u8>)
    ensures
        bytes@.len() == len,
{
    let mut bytes = vec![0u8; len];
    OsRng.fill(&mut bytes[..]);
    bytes
}

/// `PasswordHasher::hash_password` of `Argon2::default()`, with the salt
/// encoded by `SaltString::encode_b64`: the bytes of the hash, if there is
/// one, or the text of the error of either call. The result depends on the
/// passphrase and the salt alone. A salt of fewer than three bytes encodes
/// to fewer than four characters, on which the second call panics:
/// `requires` leaves it out.
#[verifier::external_body]
fn argon2_hash(passphrase: &str, salt: &[u8]) -> (r: Result<Option<Vec<u8>>, String>)
    requires
        salt@.len() >= MIN_SALT_LEN,
    ensures
        hash_outcome(r) == argon2_output(passphrase@, salt@),
{
    let salt_str = SaltString::encode_b64(salt).map_err(|e| e.to_string())?;
    let hash = Argon2::default().hash_password(passphrase.as_bytes(), &salt_str).map_err(|e| e.to_string())?;
    Ok(hash.hash.map(|output| output.as_bytes().to_vec()))
}

/// `Aead::encrypt` of ChaCha20-Poly1305: the ciphertext, which is the
/// plaintext's length and sixteen bytes long and which `Aead::decrypt` opens
/// to the plaintext under the same key and nonce; or the text of the error.
/// The key and the nonce must have the cipher's lengths: the call panics on
/// others.
#[verifier::external_body]
fn aead_encrypt(key: &[u8; 32], nonce: &[u8], plaintext: &[u8]) -> (r: Result<Vec<u8>, String>)
    requires
        nonce@.len() == NONCE_LEN,
    ensures
        outcome(r) == sealed_bytes(key@, nonce@, plaintext@),
        r is Ok ==> r->Ok_0@.len() == plaintext@.len() + TAG_LEN,
        r is Ok ==> opens_to(key@, nonce@, r->Ok_0@, plaintext@),
{
    let cipher = ChaCha20Poly1305::new(Key::from_slice(key));
    cipher.encrypt(Nonce::from_slice(nonce), plaintext).map_err(|e| e.to_string())
}

/// `Aead::decrypt` of ChaCha20-Poly1305: the plaintext, or the text of the
/// error where the ciphertext is not authentic under the key and the nonce.
/// The key and the nonce must have the cipher's lengths: the call panics on
/// others.
#[verifier::external_body]
fn aead_decrypt(key: &[u8; 32], nonce: &[u8], ciphertext: &[u8]) -> (r: Result<Vec<u8>, String>)
    requires
        nonce@.len() == NONCE_LEN,
    ensures
        outcome(r) == opened_bytes(key@, nonce@, ciphertext@),
{
    let cipher = ChaCha20Poly1305::new(Key::from_slice(key));
    cipher.decrypt(Nonce::from_slice(nonce), ciphertext).map_err(|e| e.to_string())
}

/// The key that a hash gives: its first thirty-two bytes, with zeros where
/// the hash is shorter.
pub open spec fn key_of(hash: Seq<u8>) -> Seq<u8> {
    Seq::new(KEY_LEN as nat, |i: int| if i < hash.len() { hash[i] } else { 0u8 })
}

/// The key for what the hashing returned: an error of the hashing and a
/// missing hash are failures of the cryptography.
pub open spec fn key_for(hashed: Result<Option<Seq<u8>>, Seq<char>>) -> Result<Seq<u8>, PersistErrorView> {
    match hashed {
        Err(text) => Err(PersistErrorView::Crypto(text)),
        Ok(None) => Err(PersistErrorView::Crypto("missing hash"@)),
        Ok(Some(hash)) => Ok(key_of(hash)),
    }
}

/// The key that is derived from a passphrase and a salt. A salt of fewer
/// than three bytes gives none.
pub open spec fn derived_key(passphrase: Seq<char>, salt: Seq<u8>) -> Result<Seq<u8>, PersistErrorView> {
    if salt.len() < MIN_SALT_LEN {
        Err(PersistErrorView::Crypto("salt too short"@))
    } else {
        key_for(argon2_output(passphrase, salt))
    }
}

/// The key for what the hashing returned.
pub fn key_from_hash(hashed: Result<Option<Vec<u8>>, String>) -> (r: Result<[u8; 32], PersistError>)
    ensures
        outcome(r) == key_for(hash_outcome(hashed)),
{
    match hashed {
        Err(text) => Err(PersistError::Crypto(text)),
        Ok(None) => Err(PersistError::Crypto("missing hash".to_owned())),
        Ok(Some(hash)) => {
            let mut key = [0u8; 32];
            let mut i: usize = 0;
            while i < 32 && i < hash.len()
                invariant
                    i <= 32,
                    i <= hash@.len(),
                    forall|q: int| 0 <= q < i ==> key@[q] == hash@[q],
                    forall|q: int| i <= q < 32 ==> key@[q] == 0u8,
                decreases 32 - i,
            {
                key[i] = hash[i];
                i += 1;
            }
            assert(key@ =~= key_of(hash@));
            Ok(key)
        },
    }
}

/// Derives the key from a passphrase and a salt, by a memory-hard hash.
pub fn derive_key(passphrase: &str, salt: &[u8]) -> (r: Result<[u8; 32], PersistError>)
    ensures
        outcome(r) == derived_key(passphrase@, salt@),
{
    if salt.len() < MIN_SALT_LEN {
        return Err(PersistError::Crypto("salt too short".to_owned()));
    }
    key_from_hash(argon2_hash(passphrase, salt))
}

/// The container that `plaintext` is sealed in under `passphrase` with the
/// given salt and nonce, or why the sealing fails.
pub open spec fn sealed_container(salt: Seq<u8>, nonce: Seq<u8>, plaintext: Seq<u8>, passphrase: Seq<char>) -> Result<
    Seq<u8>,
    PersistErrorView,
> {
    match derived_key(passphrase, salt) {
        Err(e) => Err(e),
        Ok(key) => match sealed_bytes(key, nonce, plaintext) {
            Err(text) => Err(PersistErrorView::Crypto("encrypt: "@ + text)),
            Ok(ciphertext) => Ok(container(salt, nonce, ciphertext)),
        },
    }
}

/// What `data` opens to under `passphrase`: the plaintext, or why the
/// opening fails. Data that is no container is rejected before any key is
/// derived.
pub open spec fn opened_container(data: Seq<u8>, passphrase: Seq<char>) -> Result<Seq<u8>, PersistErrorView> {
    match parsed(data) {
        Err(e) => Err(e),
        Ok(parts) => match derived_key(passphrase, parts.salt) {
            Err(e) => Err(e),
            Ok(key) => match opened_bytes(key, parts.nonce, parts.ciphertext) {
                Err(text) => Err(PersistErrorView::Crypto("decrypt: "@ + text)),
                Ok(plaintext) => Ok(plaintext),
            },
        },
    }
}

/// Seals `plaintext` under `passphrase` with the given salt and nonce. What
/// comes out opens to `plaintext` under the same passphrase.
pub fn seal_with(salt: &[u8], nonce: &[u8], plaintext: &[u8], passphrase: &str) -> (r: Result<Vec<u8>, PersistError>)
    requires
        salt@.len() == SALT_LEN,
        nonce@.len() == NONCE_LEN,
    ensures
        outcome(r) == sealed_container(salt@, nonce@, plaintext@, passphrase@),
        r matches Ok(bytes) ==> bytes@.len() == HEADER_LEN + plaintext@.len() + TAG_LEN,
        r matches Ok(bytes) ==> unlocks(bytes@, passphrase@, plaintext@),
{
    let key = match derive_key(passphrase, salt) {
        Ok(key) => key,
        Err(e) => {
            return Err(e);
        },
    };
    match aead_encrypt(&key, nonce, plaintext) {
        Err(text) => Err(PersistError::Crypto("encrypt: ".to_owned().concat(text.as_str()))),
        Ok(ciphertext) => {
            proof {
                lemma_container_parses(salt@, nonce@, ciphertext@);
            }
            Ok(encode_container(salt, nonce, ciphertext.as_slice()))
        },
    }
}

/// Seals `plaintext` under `passphrase` in a container, with a salt and a
/// nonce that are drawn at random for this call. What comes out opens to
/// `plaintext` under the same passphrase.
pub fn save_encrypted(plaintext: &[u8], passphrase: &str) -> (r: Result<Vec<u8>, PersistError>)
    ensures
        exists|salt: Seq<u8>, nonce: Seq<u8>|
            salt.len() == SALT_LEN && nonce.len() == NONCE_LEN && outcome(r) == #[trigger] sealed_container(
                salt,
                nonce,
                plaintext@,
                passphrase@,
            ),
        r matches Ok(bytes) ==> bytes@.len() == HEADER_LEN + plaintext@.len() + TAG_LEN,
        r matches Ok(bytes) ==> unlocks(bytes@, passphrase@, plaintext@),
        r matches Err(e) ==> e is Crypto,
{
    let salt = random_bytes(SALT_LEN);
    let nonce = random_bytes(NONCE_LEN);
    seal_with(salt.as_slice(), nonce.as_slice(), plaintext, passphrase)
}

/// Opens a container under `passphrase`. Data that is no container is
/// rejected before any key is derived; a ciphertext that is not authentic
/// under the key gives no plaintext.
pub fn load_encrypted(data: &[u8], passphrase: &str) -> (r: Result<Vec<u8>, PersistError>)
    ensures
        outcome(r) == opened_container(data@, passphrase@),
{
    let parts = match parse_container(data) {
        Ok(parts) => parts,
        Err(e) => {
            return Err(e);
        },
    };
    let key = match derive_key(passphrase, parts.salt.as_slice()) {
        Ok(key) => key,
        Err(e) => {
            return Err(e);
        },
    };
    match aead_decrypt(&key, parts.nonce.as_slice(), parts.ciphertext.as_slice()) {
        Err(text) => Err(PersistError::Crypto("decrypt: ".to_owned().concat(text.as_str()))),
        Ok(plaintext) => Ok(plaintext),
    }
}

} // verus!
