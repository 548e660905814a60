//! The device identity: an Ed25519 key pair whose public key is the
//! device's address.
use vstd::prelude::*;
use crate::push_notification::{hex_spec, nibble_char};
use crate::text::{concat_str, string_of};
use crate::crypto::ratchet::dh::{identity_secret_spec, x25519_public_spec, DhKeyPair, DhPublic};
use ed25519_dalek::{Signer, Verifier};

verus! {

/// A 32-byte Ed25519 public key: a theOS address.
#[derive(Debug, Clone, PartialEq, Eq)]
pub struct IdentityKey(pub [u8; 32]);

fn nibble(n: u8) -> (c: char)
    requires
        n < 16,
    ensures
        c == nibble_char(n),
{
    if n < 10 {
        (48u8 + n) as char
    } else {
        (87u8 + n) as char
    }
}

/// Lower-case hexadecimal text of some bytes, two digits per byte.
pub fn hex_encode(bytes: &[u8]) -> (s: String)
    ensures
        s@ == hex_spec(bytes@),
{
    let mut v: Vec<char> = Vec::new();
    let mut i: usize = 0;
    while i < bytes.len()
        invariant
            i <= bytes@.len(),
            v@ == hex_spec(bytes@.take(i as int)),
        decreases bytes@.len() - i,
    {
        let b = bytes[i];
        v.push(nibble(b / 16));
        v.push(nibble(b % 16));
        proof {
            assert(bytes@.take(i + 1).drop_last() =~= bytes@.take(i as int));
        }
        i += 1;
    }
    assert(bytes@.take(bytes@.len() as int) =~= bytes@);
    string_of(v.as_slice())
}

/// The value of an ASCII hexadecimal digit (either case).
pub open spec fn hex_value(b: u8) -> Option<u8> {
    if 48 <= b <= 57 {
        Some((b - 48) as u8)
    } else if 97 <= b <= 102 {
        Some((b - 87) as u8)
    } else if 65 <= b <= 70 {
        Some((b - 55) as u8)
    } else {
        None
    }
}

/// The byte a two-byte chunk of text stands for, as `u8::from_str_radix`
/// with radix 16 reads it: two hex digits, or '+' and one hex digit.
pub open spec fn hex_pair(b0: u8, b1: u8) -> Option<u8> {
    match (hex_value(b0), hex_value(b1)) {
        (Some(h), Some(l)) => Some((16 * h + l) as u8),
        (None, Some(l)) => if b0 == 43 { Some(l) } else { None },
        _ => None,
    }
}

/// The bytes of a hex text, two text bytes at a time; `Err` with the
/// position of the first chunk that is not a number.
pub open spec fn hex_decode_spec(t: Seq<u8>) -> Result<Seq<u8>, int>
    decreases t.len(),
{
    if t.len() < 2 {
        Ok(Seq::empty())
    } else {
        match hex_pair(t[0], t[1]) {
            None => Err(0),
            Some(b) => match hex_decode_spec(t.skip(2)) {
                Ok(rest) => Ok(seq![b] + rest),
                Err(i) => Err(i + 2),
            },
        }
    }
}

fn hex_value_of(b: u8) -> (r: Option<u8>)
    ensures
        r == hex_value(b),
{
    if 48 <= b && b <= 57 {
        Some(b - 48)
    } else if 97 <= b && b <= 102 {
        Some(b - 87)
    } else if 65 <= b && b <= 70 {
        Some(b - 55)
    } else {
        None
    }
}

fn hex_pair_of(b0: u8, b1: u8) -> (r: Option<u8>)
    ensures
        r == hex_pair(b0, b1),
{
    match (hex_value_of(b0), hex_value_of(b1)) {
        (Some(h), Some(l)) => {
            assert(h < 16 && l < 16);
            Some(16 * h + l)
        },
        (None, Some(l)) => if b0 == 43 {
            Some(l)
        } else {
            None
        },
        _ => None,
    }
}

proof fn lemma_hex_decode_step(t: Seq<u8>, i: int, acc: Seq<u8>)
    requires
        0 <= i,
        i + 2 <= t.len(),
        i % 2 == 0,
        hex_pair(t[i], t[i + 1]) is Some,
    ensures
        t.skip(i).len() >= 2,
        t.skip(i)[0] == t[i] && t.skip(i)[1] == t[i + 1],
        t.skip(i).skip(2) =~= t.skip(i + 2),
{
}

proof fn lemma_hex_spec_shape(b: Seq<u8>)
    ensures
        hex_spec(b).len() == 2 * b.len(),
        forall|i: int|
            0 <= i < b.len() ==> hex_spec(b)[2 * i] == nibble_char(b[i] / 16) && hex_spec(b)[2 * i + 1]
                == nibble_char(b[i] % 16),
    decreases b.len(),
{
    if b.len() > 0 {
        lemma_hex_spec_shape(b.drop_last());
        assert forall|i: int| 0 <= i < b.len() implies hex_spec(b)[2 * i] == nibble_char(b[i] / 16)
            && hex_spec(b)[2 * i + 1] == nibble_char(b[i] % 16) by {
            if i < b.len() - 1 {
                assert(b.drop_last()[i] == b[i]);
            }
        }
    }
}

proof fn lemma_nibble_value(n: u8)
    requires
        n < 16,
    ensures
        (nibble_char(n) as u8) == (if n < 10 { 48 + n } else { 87 + n }),
        hex_value(nibble_char(n) as u8) == Some(n),
        '\0' <= nibble_char(n) <= '\u{7f}',
{
}

proof fn lemma_hex_decode_from(t: Seq<u8>, b: Seq<u8>, j: int)
    requires
        t.len() == 2 * b.len(),
        0 <= j <= b.len(),
        forall|i: int|
            0 <= i < b.len() ==> t[2 * i] == nibble_char(b[i] / 16) as u8 && t[2 * i + 1] == nibble_char(
                b[i] % 16,
            ) as u8,
    ensures
        hex_decode_spec(t.skip(2 * j)) == Ok::<Seq<u8>, int>(b.skip(j)),
    decreases b.len() - j,
{
    let u = t.skip(2 * j);
    if j < b.len() {
        lemma_hex_decode_from(t, b, j + 1);
        let x = b[j];
        lemma_nibble_value(x / 16);
        lemma_nibble_value(x % 16);
        assert(u[0] == t[2 * j] && u[1] == t[2 * j + 1]);
        assert(hex_pair(u[0], u[1]) == Some(x)) by {
            assert(16 * (x / 16) + x % 16 == x);
        }
        assert(u.skip(2) =~= t.skip(2 * (j + 1)));
        assert(b.skip(j) =~= seq![x] + b.skip(j + 1));
    } else {
        assert(u.len() == 0);
        assert(b.skip(j) =~= Seq::<u8>::empty());
    }
}

/// Reading back the hex text of a key gives the key: `from_hex` of
/// `to_hex` is the key again, and the text can always be cut.
pub proof fn law_hex_round_trip(k: Seq<u8>)
    requires
        k.len() == 32,
    ensures
        hex_cut_ok(hex_spec(k)),
        from_hex_spec(hex_spec(k)) == Ok::<Seq<u8>, Seq<char>>(k),
{
    let h = hex_spec(k);
    lemma_hex_spec_shape(k);
    assert forall|i: int| 0 <= i < h.len() implies '\0' <= #[trigger] h[i] <= '\u{7f}' by {
        let q = i / 2;
        assert(0 <= q < k.len());
        lemma_nibble_value(k[q] / 16);
        lemma_nibble_value(k[q] % 16);
        if i % 2 == 0 {
            assert(i == 2 * q);
        } else {
            assert(i == 2 * q + 1);
        }
    }
    assert(vstd::utf8::is_ascii_chars(h));
    vstd::utf8::is_ascii_chars_encode_utf8(h);
    let t = vstd::utf8::encode_utf8(h);
    assert forall|i: int| 0 <= i < k.len() implies t[2 * i] == nibble_char(k[i] / 16) as u8 && t[2 * i + 1]
        == nibble_char(k[i] % 16) as u8 by {
        assert(h[2 * i] as u8 == t[2 * i]);
        assert(h[2 * i + 1] as u8 == t[2 * i + 1]);
    }
    lemma_hex_decode_from(t, k, 0);
    assert(t.skip(0) =~= t);
    assert(k.skip(0) =~= k);
}

/// Decimal digits of a number.
pub open spec fn decimal_spec(n: nat) -> Seq<char>
    decreases n,
{
    if n < 10 {
        seq![(48 + n) as char]
    } else {
        decimal_spec(n / 10) + seq![(48 + n % 10) as char]
    }
}

/// The decimal text of a number.
pub fn decimal(n: u64) -> (s: String)
    ensures
        s@ == decimal_spec(n as nat),
    decreases n,
{
    if n < 10 {
        let d = (48u8 + n as u8) as char;
        let mut v: Vec<char> = Vec::new();
        v.push(d);
        assert(v@ =~= seq![(48 + n) as char]);
        string_of(v.as_slice())
    } else {
        let head = decimal(n / 10);
        let mut v = crate::text::chars_of(head.as_str());
        v.push((48u8 + (n % 10) as u8) as char);
        string_of(v.as_slice())
    }
}

/// What `IdentityKey::from_hex` returns for a text.
pub open spec fn from_hex_spec(s: Seq<char>) -> Result<Seq<u8>, Seq<char>> {
    let t = vstd::utf8::encode_utf8(s);
    if t.len() % 2 != 0 {
        Err("odd length hex string"@)
    } else {
        match hex_decode_spec(t) {
            Err(i) => Err("invalid hex at position "@ + decimal_spec(i as nat)),
            Ok(b) => if b.len() != 32 {
                Err("expected 32 bytes, got "@ + decimal_spec(b.len()))
            } else {
                Ok(b)
            },
        }
    }
}

/// Cutting the text into two-byte chunks never splits a character before
/// the first chunk that is not a hex number: the UTF-8 length is odd, or
/// every chunk decodes, or the first bad chunk ends on a character boundary.
pub open spec fn hex_cut_ok(s: Seq<char>) -> bool {
    let t = vstd::utf8::encode_utf8(s);
    t.len() % 2 != 0 || match hex_decode_spec(t) {
        Ok(_) => true,
        Err(k) => vstd::utf8::is_char_boundary(t, k + 2),
    }
}

/// The first `g` groups of eight hex digits, joined by '·'.
pub open spec fn display_prefix(h: Seq<char>, g: int) -> Seq<char>
    decreases g,
{
    if g <= 1 {
        h.subrange(0, 8)
    } else {
        display_prefix(h, g - 1) + seq!['·'] + h.subrange(8 * (g - 1), 8 * g)
    }
}

impl IdentityKey {
    /// The first eight hex digits.
    pub fn short(&self) -> (s: String)
        ensures
            s@ == hex_spec(self.0@.take(4)),
    {
        let mut v: Vec<u8> = Vec::new();
        v.push(self.0[0]);
        v.push(self.0[1]);
        v.push(self.0[2]);
        v.push(self.0[3]);
        assert(v@ =~= self.0@.take(4));
        hex_encode(v.as_slice())
    }

    /// The full hex text of the key.
    pub fn to_hex(&self) -> (s: String)
        ensures
            s@ == hex_spec(self.0@),
    {
        hex_encode(&self.0)
    }

    /// Parse a key from hex text: 64 hex digits (either case).
    pub fn from_hex(s: &str) -> (r: Result<Self, String>)
        requires
            hex_cut_ok(s@),
        ensures
            match from_hex_spec(s@) {
                Ok(b) => r is Ok && r->Ok_0.0@ == b,
                Err(e) => r is Err && r->Err_0@ == e,
            },
    {
        let t = s.as_bytes();
        if t.len() % 2 != 0 {
            return Err("odd length hex string".to_owned());
        }
        let mut out: Vec<u8> = Vec::new();
        let mut i: usize = 0;
        proof {
            assert(t@.skip(0) =~= t@);
            match hex_decode_spec(t@) {
                Ok(rest) => {
                    assert(out@ + rest =~= rest);
                },
                Err(_) => {},
            }
        }
        while i < t.len()
            invariant
                t@ == vstd::utf8::encode_utf8(s@),
                t@.len() % 2 == 0,
                i <= t@.len(),
                i % 2 == 0,
                match hex_decode_spec(t@.skip(i as int)) {
                    Ok(rest) => hex_decode_spec(t@) == Ok::<Seq<u8>, int>(out@ + rest),
                    Err(k) => hex_decode_spec(t@) == Err::<Seq<u8>, int>(i + k),
                },
            decreases t@.len() - i,
        {
            match hex_pair_of(t[i], t[i + 1]) {
                None => {
                    proof {
                        assert(t@.skip(i as int)[0] == t@[i as int]);
                        assert(t@.skip(i as int)[1] == t@[i + 1]);
                    }
                    let msg = concat_str("invalid hex at position ", decimal(i as u64).as_str());
                    return Err(msg);
                },
                Some(b) => {
                    proof {
                        lemma_hex_decode_step(t@, i as int, out@);
                        match hex_decode_spec(t@.skip(i + 2)) {
                            Ok(rest) => {
                                assert(out@ + (seq![b] + rest) =~= out@.push(b) + rest);
                            },
                            Err(k) => {},
                        }
                    }
                    out.push(b);
                    i += 2;
                },
            }
        }
        proof {
            assert(t@.skip(i as int).len() == 0);
            assert(out@ + Seq::<u8>::empty() =~= out@);
        }
        if out.len() != 32 {
            let msg = concat_str("expected 32 bytes, got ", decimal(out.len() as u64).as_str());
            return Err(msg);
        }
        let mut arr = [0u8; 32];
        let mut k: usize = 0;
        while k < 32
            invariant
                k <= 32,
                out@.len() == 32,
                forall|j: int| 0 <= j < k ==> arr@[j] == out@[j],
            decreases 32 - k,
        {
            arr[k] = out[k];
            k += 1;
        }
        assert(arr@ =~= out@);
        Ok(IdentityKey(arr))
    }

    /// The display form: the first 32 hex digits in four groups of eight,
    /// joined by '·'.
    pub fn display_text(&self) -> (s: String)
        ensures
            s@ == hex_spec(self.0@).subrange(0, 8) + seq!['·'] + hex_spec(self.0@).subrange(8, 16) + seq!['·']
                + hex_spec(self.0@).subrange(16, 24) + seq!['·'] + hex_spec(self.0@).subrange(24, 32),
    {
        let h = self.to_hex();
        let hc = crate::text::chars_of(h.as_str());
        proof {
            crate::camera::lemma_hex_len(self.0@);
        }
        let mut v: Vec<char> = Vec::new();
        let mut g: usize = 0;
        while g < 4
            invariant
                g <= 4,
                hc@ == hex_spec(self.0@),
                hc@.len() == 64,
                v@ == if g == 0 {
                    Seq::<char>::empty()
                } else {
                    display_prefix(hc@, g as int)
                },
            decreases 4 - g,
        {
            let ghost v0 = v@;
            if g > 0 {
                v.push('·');
            }
            let mut i: usize = 8 * g;
            while i < 8 * g + 8
                invariant
                    g < 4,
                    hc@.len() == 64,
                    8 * g <= i <= 8 * g + 8,
                    v@ == (if g > 0 {
                        v0.push('·')
                    } else {
                        v0
                    }) + hc@.subrange(8 * g as int, i as int),
                decreases 8 * g + 8 - i,
            {
                v.push(hc[i]);
                proof {
                    assert(v@ =~= (if g > 0 {
                        v0.push('·')
                    } else {
                        v0
                    }) + hc@.subrange(8 * g as int, i + 1));
                }
                i += 1;
            }
            proof {
                if g == 0 {
                    assert(v@ =~= display_prefix(hc@, 1));
                } else {
                    assert(v@ =~= display_prefix(hc@, g + 1));
                }
            }
            g += 1;
        }
        proof {
            assert(display_prefix(hc@, 1) == hc@.subrange(0, 8));
            assert(display_prefix(hc@, 2) == display_prefix(hc@, 1) + seq!['·'] + hc@.subrange(8, 16));
            assert(display_prefix(hc@, 3) == display_prefix(hc@, 2) + seq!['·'] + hc@.subrange(16, 24));
            assert(v@ == display_prefix(hc@, 3) + seq!['·'] + hc@.subrange(24, 32));
        }
        string_of(v.as_slice())
    }

    /// The contact URI "theos://contact/<hex>".
    pub fn to_uri(&self) -> (s: String)
        ensures
            s@ == "theos://contact/"@ + hex_spec(self.0@),
    {
        let h = self.to_hex();
        concat_str("theos://contact/", h.as_str())
    }
}

/// A fresh Ed25519 secret key from the operating system's random source
/// (`ed25519_dalek::SigningKey::generate` with `rand::rngs::OsRng`, then
/// `to_bytes`).  Nothing is known of the bytes.
#[verifier::external_body]
fn random_secret() -> (seed: [u8; 32]) {
    ed25519_dalek::SigningKey::generate(&mut rand::rngs::OsRng).to_bytes()
}

/// The public key of an Ed25519 secret key.
pub uninterp spec fn ed25519_public_spec(seed: Seq<u8>) -> Seq<u8>;

/// The Ed25519 public key of a secret key
/// (`SigningKey::from_bytes(..).verifying_key().to_bytes()`).
#[verifier::external_body]
fn ed25519_public(seed: &[u8; 32]) -> (pk: [u8; 32])
    ensures
        pk@ == ed25519_public_spec(seed@),
{
    ed25519_dalek::SigningKey::from_bytes(seed).verifying_key().to_bytes()
}

/// The Ed25519 signature of a message under a secret key.
pub uninterp spec fn ed25519_sign_spec(seed: Seq<u8>, msg: Seq<u8>) -> Seq<u8>;

/// Sign a message (`SigningKey::sign`, deterministic Ed25519).
#[verifier::external_body]
fn ed25519_sign(seed: &[u8; 32], msg: &[u8]) -> (sig: [u8; 64])
    ensures
        sig@ == ed25519_sign_spec(seed@, msg@),
{
    ed25519_dalek::SigningKey::from_bytes(seed).sign(msg).to_bytes()
}

/// Whether a signature checks against a public key and message.
pub uninterp spec fn ed25519_verify_spec(pk: Seq<u8>, msg: Seq<u8>, sig: Seq<u8>) -> bool;

/// Check a signature (`VerifyingKey::from_bytes`, then `Verifier::verify`);
/// a public key that does not decode fails.  A signature made with the
/// secret key of that public key checks.
#[verifier::external_body]
fn ed25519_verify(pk: &[u8; 32], msg: &[u8], sig: &[u8; 64]) -> (r: bool)
    ensures
        r == ed25519_verify_spec(pk@, msg@, sig@),
        forall|seed: Seq<u8>|
            seed.len() == 32 && pk@ == ed25519_public_spec(seed) && sig@ == ed25519_sign_spec(seed, msg@) ==> r,
{
    match ed25519_dalek::VerifyingKey::from_bytes(pk) {
        Ok(k) => k.verify(msg, &ed25519_dalek::Signature::from_bytes(sig)).is_ok(),
        Err(_) => false,
    }
}

/// An Ed25519 key pair.
pub struct KeyPair {
    pub public: IdentityKey,
    secret: [u8; 32],
}

impl KeyPair {
    /// The secret key.
    pub closed spec fn secret_spec(&self) -> Seq<u8> {
        self.secret@
    }

    /// The public key.
    pub closed spec fn public_spec(&self) -> Seq<u8> {
        self.public.0@
    }

    /// A new key pair from the operating system's random source.
    pub fn generate() -> (kp: Self)
        ensures
            kp.secret_spec().len() == 32,
            kp.public_spec() == ed25519_public_spec(kp.secret_spec()),
    {
        let secret = random_secret();
        let public = IdentityKey(ed25519_public(&secret));
        KeyPair { public, secret }
    }

    /// The key pair of a stored secret key.
    pub fn from_secret(secret: [u8; 32]) -> (kp: Self)
        ensures
            kp.secret_spec() == secret@,
            kp.public_spec() == ed25519_public_spec(secret@),
    {
        let public = IdentityKey(ed25519_public(&secret));
        KeyPair { public, secret }
    }

    /// A copy of the public key.
    pub fn public_key(&self) -> (k: IdentityKey)
        ensures
            k.0@ == self.public_spec(),
    {
        IdentityKey(self.public.0)
    }

    /// The secret key, for sealed storage.
    pub fn secret_bytes(&self) -> (s: [u8; 32])
        ensures
            s@ == self.secret_spec(),
    {
        self.secret
    }

    /// The X25519 identity key pair derived from this identity's secret,
    /// for key agreement.
    pub fn x25519_identity(&self) -> (kp: DhKeyPair)
        ensures
            kp.secret_spec() == identity_secret_spec(self.secret_spec()),
    {
        DhKeyPair::from_identity_seed(&self.secret)
    }

    /// The public half of the X25519 identity key pair.
    pub fn x25519_identity_public(&self) -> (p: DhPublic)
        ensures
            p@ == x25519_public_spec(identity_secret_spec(self.secret_spec())),
    {
        self.x25519_identity().public_bytes()
    }

    /// Sign a message.
    pub fn sign(&self, message: &[u8]) -> (sig: Vec<u8>)
        ensures
            sig@ == ed25519_sign_spec(self.secret_spec(), message@),
            sig@.len() == 64,
    {
        let s = ed25519_sign(&self.secret, message);
        vstd::slice::slice_to_vec(&s)
    }

    /// Check a signature: it must be 64 bytes and check against the key.
    pub fn verify(public: &IdentityKey, message: &[u8], signature_bytes: &[u8]) -> (r: bool)
        ensures
            r == (signature_bytes@.len() == 64 && ed25519_verify_spec(public.0@, message@, signature_bytes@)),
            forall|seed: Seq<u8>|
                seed.len() == 32 && signature_bytes@.len() == 64 && public.0@ == ed25519_public_spec(seed)
                    && signature_bytes@ == ed25519_sign_spec(seed, message@) ==> r,
    {
        if signature_bytes.len() != 64 {
            return false;
        }
        let mut sig = [0u8; 64];
        let mut i: usize = 0;
        while i < 64
            invariant
                i <= 64,
                signature_bytes@.len() == 64,
                forall|j: int| 0 <= j < i ==> sig@[j] == signature_bytes@[j],
            decreases 64 - i,
        {
            sig[i] = signature_bytes[i];
            i += 1;
        }
        assert(sig@ =~= signature_bytes@);
        ed25519_verify(&public.0, message, &sig)
    }
}

} // verus!
