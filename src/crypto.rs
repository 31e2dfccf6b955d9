use vstd::prelude::*;

use sodiumoxide::crypto::aead::xchacha20poly1305_ietf as aead;
use sodiumoxide::crypto::auth::hmacsha512256;
use sodiumoxide::crypto::hash::sha256;

verus! {

/// What SHA-256 gives for a byte sequence.
pub uninterp spec fn sha256_of(data: Seq<u8>) -> Seq<u8>;

/// What HMAC-SHA-512-256 under `key` gives for `msg`.
pub uninterp spec fn hmac_of(key: Seq<u8>, msg: Seq<u8>) -> Seq<u8>;

/// What XChaCha20-Poly1305 decryption of ciphertext `c` with additional
/// data `ad`, nonce `n` and key `k` gives: `None` where it fails to verify.
pub uninterp spec fn opened(c: Seq<u8>, ad: Seq<u8>, n: Seq<u8>, k: Seq<u8>) -> Option<Seq<u8>>;

/// Relies on sodiumoxide::crypto::hash::sha256::hash: the 32-byte SHA-256
/// digest, a function of the data alone.
#[verifier::external_body]
fn sha256_digest(data: &[u8]) -> (r: [u8; 32])
    ensures
        r@ == sha256_of(data@),
{
    let sha256::Digest(h) = sha256::hash(data);
    h
}

/// Relies on sodiumoxide::crypto::auth::hmacsha512256::authenticate: the
/// 32-byte tag of `msg` under `key`, a function of the two alone.
#[verifier::external_body]
fn hmac_tag(key: &[u8; 32], msg: &[u8; 32]) -> (r: [u8; 32])
    ensures
        r@ == hmac_of(key@, msg@),
{
    hmacsha512256::authenticate(msg, &hmacsha512256::Key(*key)).0
}

/// Relies on sodiumoxide::crypto::aead::xchacha20poly1305_ietf::gen_nonce:
/// a random nonce, of which nothing is promised.
#[verifier::external_body]
fn random_nonce() -> (r: [u8; 24]) {
    aead::gen_nonce().0
}

/// Relies on sodiumoxide::crypto::aead::xchacha20poly1305_ietf::seal: the
/// ciphertext it returns decrypts, with the same additional data, nonce and
/// key, to the message.
#[verifier::external_body]
fn aead_seal(m: &[u8], ad: &[u8; 32], n: &[u8; 24], k: &[u8; 32]) -> (r: Vec<u8>)
    ensures
        opened(r@, ad@, n@, k@) == Some(m@),
{
    aead::seal(m, Some(ad), &aead::Nonce(*n), &aead::Key(*k))
}

/// Relies on sodiumoxide::crypto::aead::xchacha20poly1305_ietf::open: the
/// plaintext where the ciphertext verifies, an error where it does not.
#[verifier::external_body]
fn aead_open(c: &[u8], ad: &[u8; 32], n: &[u8; 24], k: &[u8; 32]) -> (r: Option<Vec<u8>>)
    ensures
        match r {
            Some(p) => opened(c@, ad@, n@, k@) == Some(p@),
            None => opened(c@, ad@, n@, k@) is None,
        },
{
    aead::open(c, Some(ad), &aead::Nonce(*n), &aead::Key(*k)).ok()
}

/// Content hash of a block: the context under which it is encrypted.
pub fn context_of(data: &[u8]) -> (r: [u8; 32])
    ensures
        r@ == sha256_of(data@),
{
    sha256_digest(data)
}

/// Authenticated ciphertext of one block, with the nonce it was sealed under.
#[derive(Debug, Clone, PartialEq, Eq)]
pub struct Cachet {
    pub nonce: [u8; 24],
    pub ciphertext: Vec<u8>,
}

/// The key service: a root secret from which a key is derived for each
/// context, and authenticated encryption under that key.
pub struct KeyTree {
    root: [u8; 32],
}

/// The key that a root secret derives for a context.
pub open spec fn derived_key(root: Seq<u8>, context: Seq<u8>) -> Seq<u8> {
    hmac_of(root, context)
}

impl KeyTree {
    /// The root secret.
    pub closed spec fn root_secret(&self) -> Seq<u8> {
        self.root@
    }

    /// What the pair `(context, c)` decrypts to under this key service:
    /// `None` where it does not decrypt.
    pub open spec fn opens(&self, context: Seq<u8>, c: Cachet) -> Option<Seq<u8>> {
        opened(c.ciphertext@, context, c.nonce@, derived_key(self.root_secret(), context))
    }

    /// A key service whose root secret is the given 32 bytes.
    pub fn from_root(root: [u8; 32]) -> (r: KeyTree)
        ensures
            r.root_secret() == root@,
    {
        KeyTree { root }
    }

    /// Encrypts `data` under the key derived for `context`.
    pub fn derive_and_encrypt(&self, context: &[u8; 32], data: &[u8]) -> (r: Cachet)
        ensures
            self.opens(context@, r) == Some(data@),
    {
        let key = hmac_tag(&self.root, context);
        let nonce = random_nonce();
        let ciphertext = aead_seal(data, context, &nonce, &key);
        Cachet { nonce, ciphertext }
    }

    /// Decrypts `c` under the key derived for `context`; `None` where it
    /// does not verify.
    pub fn derive_and_decrypt(&self, context: &[u8; 32], c: &Cachet) -> (r: Option<Vec<u8>>)
        ensures
            match r {
                Some(p) => self.opens(context@, *c) == Some(p@),
                None => self.opens(context@, *c) is None,
            },
    {
        let key = hmac_tag(&self.root, context);
        aead_open(c.ciphertext.as_slice(), context, &c.nonce, &key)
    }
}

} // verus!
