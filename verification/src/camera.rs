//! Photo capture driven by spoken intents, with signed capture records.
use vstd::prelude::*;
use std::collections::VecDeque;
use vstd::bytes::{spec_u64_to_le_bytes, u64_to_le_bytes};
use vstd::utf8::encode_utf8;
use crate::clock::now_secs;
use crate::identity::keypair::{decimal, decimal_spec, ed25519_public_spec, ed25519_sign_spec, ed25519_verify_spec, hex_encode, IdentityKey, KeyPair};
use crate::primitives::{sha256, sha256_spec};
use crate::push_notification::{hex_spec, nibble_char};
use crate::text::{chars_of, concat_str, contains, contains_spec, lowercase_spec, string_of, trim, trim_spec};
use crate::web_proxy::registry::{tail, trimmed_lowercase};

verus! {

pub const MAX_RECENT_CAPTURES: usize = 100;

#[derive(Debug, Clone, PartialEq)]
pub enum CameraState {
    Unavailable,
    Idle,
    Capturing,
    Processing,
    Saved,
    Error(String),
}

impl CameraState {
    /// Only an idle camera can capture.
    pub fn is_ready(&self) -> (r: bool)
        ensures
            r == (*self is Idle),
    {
        match self {
            CameraState::Idle => true,
            _ => false,
        }
    }

    pub fn label(&self) -> (r: &'static str)
        ensures
            r@ == match *self {
                CameraState::Unavailable => "unavailable"@,
                CameraState::Idle => "ready"@,
                CameraState::Capturing => "capturing"@,
                CameraState::Processing => "processing"@,
                CameraState::Saved => "saved"@,
                CameraState::Error(_) => "error"@,
            },
    {
        match self {
            CameraState::Unavailable => "unavailable",
            CameraState::Idle => "ready",
            CameraState::Capturing => "capturing",
            CameraState::Processing => "processing",
            CameraState::Saved => "saved",
            CameraState::Error(_) => "error",
        }
    }
}

#[derive(Debug, Clone, Copy, PartialEq, Eq, Structural)]
pub enum CameraLens {
    Main,
    Telephoto,
    Front,
}

impl CameraLens {
    pub fn v4l2_device(&self) -> (r: &'static str)
        ensures
            r@ == match *self {
                CameraLens::Main => "/dev/video0"@,
                CameraLens::Telephoto => "/dev/video1"@,
                CameraLens::Front => "/dev/video2"@,
            },
    {
        match self {
            CameraLens::Main => "/dev/video0",
            CameraLens::Telephoto => "/dev/video1",
            CameraLens::Front => "/dev/video2",
        }
    }
}

/// The metadata of a captured photo; the image itself is stored encrypted
/// at `storage_path`.
#[derive(Debug, Clone)]
pub struct CameraCapture {
    pub id: String,
    pub timestamp: u64,
    pub lens: CameraLens,
    pub storage_path: String,
    pub width: u32,
    pub height: u32,
    pub signature: Vec<u8>,
    pub sent_to: Vec<String>,
}

/// The capture id: hex SHA-256 of the owner key, the timestamp, a nonce
/// and a label.
pub open spec fn capture_id_spec(owner: Seq<u8>, timestamp: u64, nonce: u64) -> Seq<char> {
    hex_spec(sha256_spec(owner + spec_u64_to_le_bytes(timestamp) + spec_u64_to_le_bytes(nonce) + encode_utf8(
        "theos-capture-id-v1"@,
    )))
}

/// Where a capture is stored.
pub open spec fn capture_path_spec(timestamp: u64, id: Seq<char>) -> Seq<char> {
    "/run/theos/photos/"@ + decimal_spec(timestamp as nat) + "_"@ + id.take(8) + ".enc"@
}

/// The bytes a capture's signature covers.
pub open spec fn capture_payload_spec(id: Seq<char>, timestamp: u64, path: Seq<char>) -> Seq<u8> {
    encode_utf8(id) + spec_u64_to_le_bytes(timestamp) + encode_utf8(path) + encode_utf8("theos-photo-v1"@)
}

pub fn append(out: &mut Vec<u8>, data: &[u8])
    ensures
        final(out)@ == old(out)@ + data@,
{
    let mut i: usize = 0;
    while i < data.len()
        invariant
            i <= data@.len(),
            out@ == old(out)@ + data@.take(i as int),
        decreases data@.len() - i,
    {
        out.push(data[i]);
        proof {
            assert(out@ =~= old(out)@ + data@.take(i + 1));
        }
        i += 1;
    }
    assert(data@.take(data@.len() as int) =~= data@);
}

fn derive_capture_id(owner: &IdentityKey, timestamp: u64, nonce: u64) -> (id: String)
    ensures
        id@ == capture_id_spec(owner.0@, timestamp, nonce),
        id@.len() == 64,
{
    let mut msg: Vec<u8> = Vec::new();
    append(&mut msg, &owner.0);
    let t = u64_to_le_bytes(timestamp);
    append(&mut msg, t.as_slice());
    let c = u64_to_le_bytes(nonce);
    append(&mut msg, c.as_slice());
    append(&mut msg, "theos-capture-id-v1".as_bytes());
    let h = sha256(msg.as_slice());
    proof {
        lemma_hex_len(h@);
    }
    hex_encode(&h)
}

fn signing_payload(id: &str, timestamp: u64, path: &str) -> (p: Vec<u8>)
    ensures
        p@ == capture_payload_spec(id@, timestamp, path@),
{
    let mut p: Vec<u8> = Vec::new();
    append(&mut p, id.as_bytes());
    let t = u64_to_le_bytes(timestamp);
    append(&mut p, t.as_slice());
    append(&mut p, path.as_bytes());
    append(&mut p, "theos-photo-v1".as_bytes());
    p
}

pub proof fn lemma_hex_len(b: Seq<u8>)
    ensures
        hex_spec(b).len() == 2 * b.len(),
    decreases b.len(),
{
    if b.len() > 0 {
        lemma_hex_len(b.drop_last());
    }
}

/// A lower-case hexadecimal digit.
pub open spec fn lower_hex_digit(c: char) -> bool {
    (48 <= c as u32 && c as u32 <= 57) || (97 <= c as u32 && c as u32 <= 102)
}

/// Hexadecimal text is made of lower-case hexadecimal digits.
pub proof fn lemma_hex_digits(b: Seq<u8>)
    ensures
        forall|i: int| 0 <= i < hex_spec(b).len() ==> lower_hex_digit(#[trigger] hex_spec(b)[i]),
    decreases b.len(),
{
    if b.len() > 0 {
        lemma_hex_digits(b.drop_last());
        let x = b.last();
        let r = hex_spec(b.drop_last());
        let t = seq![nibble_char(x / 16), nibble_char(x % 16)];
        assert(hex_spec(b) == r + t);
        assert(lower_hex_digit(nibble_char(x / 16)));
        assert(lower_hex_digit(nibble_char(x % 16)));
        assert forall|i: int| 0 <= i < hex_spec(b).len() implies lower_hex_digit(#[trigger] hex_spec(b)[i]) by {
            if i < r.len() {
                assert(hex_spec(b)[i] == r[i]);
            } else {
                assert(hex_spec(b)[i] == t[i - r.len()]);
            }
        }
    }
}

/// A random 64-bit number (`rand::random`).  Nothing is promised of it.
#[verifier::external_body]
fn random_u64() -> u64 {
    rand::random::<u64>()
}

impl CameraCapture {
    /// A signed capture record made at `timestamp`, its id drawn with
    /// `nonce`.
    pub fn new_at(
        lens: CameraLens,
        width: u32,
        height: u32,
        owner_key: &IdentityKey,
        keypair: &KeyPair,
        timestamp: u64,
        nonce: u64,
    ) -> (c: Self)
        ensures
            c.id@ == capture_id_spec(owner_key.0@, timestamp, nonce),
            c.id@.len() == 64,
            forall|i: int| 0 <= i < 64 ==> lower_hex_digit(#[trigger] c.id@[i]),
            c.timestamp == timestamp,
            c.lens == lens,
            c.storage_path@ == capture_path_spec(timestamp, c.id@),
            c.width == width,
            c.height == height,
            c.signature@ == ed25519_sign_spec(keypair.secret_spec(), capture_payload_spec(c.id@, timestamp, c.storage_path@)),
            c.signature@.len() == 64,
            c.sent_to@.len() == 0,
    {
        let id = derive_capture_id(owner_key, timestamp, nonce);
        proof {
            lemma_hex_digits(sha256_spec(owner_key.0@ + spec_u64_to_le_bytes(timestamp) + spec_u64_to_le_bytes(nonce) + encode_utf8(
                "theos-capture-id-v1"@,
            )));
        }
        let idc = chars_of(id.as_str());
        let mut short: Vec<char> = Vec::new();
        let mut k: usize = 0;
        while k < 8
            invariant
                k <= 8,
                idc@.len() >= 8,
                short@ == idc@.take(k as int),
            decreases 8 - k,
        {
            short.push(idc[k]);
            proof {
                assert(short@ =~= idc@.take(k + 1));
            }
            k += 1;
        }
        let ts = decimal(timestamp);
        let p1 = concat_str("/run/theos/photos/", ts.as_str());
        let p2 = concat_str(p1.as_str(), "_");
        let ss = string_of(short.as_slice());
        let p3 = concat_str(p2.as_str(), ss.as_str());
        let path = concat_str(p3.as_str(), ".enc");
        let payload = signing_payload(id.as_str(), timestamp, path.as_str());
        let signature = keypair.sign(payload.as_slice());
        CameraCapture {
            id,
            timestamp,
            lens,
            storage_path: path,
            width,
            height,
            signature,
            sent_to: Vec::new(),
        }
    }

    /// A signed capture record, made now; a random nonce keeps ids of
    /// captures within the same second apart.
    pub fn new(lens: CameraLens, width: u32, height: u32, owner_key: &IdentityKey, keypair: &KeyPair) -> (c: Self)
        ensures
            c.id@.len() == 64,
            forall|i: int| 0 <= i < 64 ==> lower_hex_digit(#[trigger] c.id@[i]),
            c.lens == lens,
            c.width == width,
            c.height == height,
            c.storage_path@ == capture_path_spec(c.timestamp, c.id@),
            c.signature@ == ed25519_sign_spec(keypair.secret_spec(), capture_payload_spec(c.id@, c.timestamp, c.storage_path@)),
            c.signature@.len() == 64,
            c.sent_to@.len() == 0,
    {
        let timestamp = now_secs();
        let nonce = random_u64();
        Self::new_at(lens, width, height, owner_key, keypair, timestamp, nonce)
    }

    /// The record was signed by the holder of `owner_key`.  A record made
    /// with the key pair of `owner_key` verifies.
    pub fn verify(&self, owner_key: &IdentityKey) -> (r: bool)
        ensures
            r == (self.signature@.len() == 64 && ed25519_verify_spec(
                owner_key.0@,
                capture_payload_spec(self.id@, self.timestamp, self.storage_path@),
                self.signature@,
            )),
            forall|seed: Seq<u8>|
                seed.len() == 32 && self.signature@.len() == 64 && owner_key.0@ == ed25519_public_spec(seed)
                    && self.signature@ == ed25519_sign_spec(
                    seed,
                    capture_payload_spec(self.id@, self.timestamp, self.storage_path@),
                ) ==> r,
    {
        let payload = signing_payload(self.id.as_str(), self.timestamp, self.storage_path.as_str());
        KeyPair::verify(owner_key, payload.as_slice(), self.signature.as_slice())
    }

    fn sent_index(&self, contact_key_hex: &str) -> (r: Option<usize>)
        ensures
            match r {
                Some(i) => i < self.sent_to@.len() && self.sent_to@[i as int]@ == contact_key_hex@,
                None => forall|i: int| 0 <= i < self.sent_to@.len() ==> self.sent_to@[i]@ != contact_key_hex@,
            },
    {
        let target = chars_of(contact_key_hex);
        let mut i: usize = 0;
        while i < self.sent_to.len()
            invariant
                target@ == contact_key_hex@,
                i <= self.sent_to@.len(),
                forall|k: int| 0 <= k < i ==> self.sent_to@[k]@ != contact_key_hex@,
            decreases self.sent_to@.len() - i,
        {
            let s = chars_of(self.sent_to[i].as_str());
            if crate::text::chars_eq(s.as_slice(), target.as_slice()) {
                return Some(i);
            }
            i += 1;
        }
        None
    }

    /// Record that the photo went to a contact, once.
    pub fn mark_sent_to(&mut self, contact_key_hex: String)
        ensures
            final(self).sent_to@ == (if exists|i: int| 0 <= i < old(self).sent_to@.len() && old(self).sent_to@[i]@
                == contact_key_hex@ {
                old(self).sent_to@
            } else {
                old(self).sent_to@.push(contact_key_hex)
            }),
            final(self).id == old(self).id,
            final(self).timestamp == old(self).timestamp,
            final(self).lens == old(self).lens,
            final(self).storage_path == old(self).storage_path,
            final(self).signature == old(self).signature,
    {
        match self.sent_index(contact_key_hex.as_str()) {
            Some(_) => {},
            None => self.sent_to.push(contact_key_hex),
        }
    }

    /// The photo went to this contact.
    pub fn was_sent_to(&self, contact_key_hex: &str) -> (r: bool)
        ensures
            r == exists|i: int| 0 <= i < self.sent_to@.len() && self.sent_to@[i]@ == contact_key_hex@,
    {
        self.sent_index(contact_key_hex).is_some()
    }
}

/// What the assistant asks of the camera.
#[derive(Debug, Clone, PartialEq)]
pub enum CameraIntent {
    Capture { lens: CameraLens },
    CaptureAndSend { lens: CameraLens, contact_name: String },
    Selfie,
    Gallery,
    Unknown { raw: String },
}

/// An intent as plain values.
pub enum IntentView {
    Capture(CameraLens),
    CaptureAndSend(CameraLens, Seq<char>),
    Selfie,
    Gallery,
    Unknown(Seq<char>),
}

impl View for CameraIntent {
    type V = IntentView;

    open spec fn view(&self) -> IntentView {
        match self {
            CameraIntent::Capture { lens } => IntentView::Capture(*lens),
            CameraIntent::CaptureAndSend { lens, contact_name } => IntentView::CaptureAndSend(*lens, contact_name@),
            CameraIntent::Selfie => IntentView::Selfie,
            CameraIntent::Gallery => IntentView::Gallery,
            CameraIntent::Unknown { raw } => IntentView::Unknown(raw@),
        }
    }
}

/// What `char::is_alphabetic` says of a character.
pub uninterp spec fn alphabetic_spec(c: char) -> bool;

/// Whether a character is alphabetic (`char::is_alphabetic`, the Unicode
/// Alphabetic property); among ASCII characters exactly the letters are.
#[verifier::external_body]
fn is_alphabetic(c: char) -> (r: bool)
    ensures
        r == alphabetic_spec(c),
        (c as u32) < 128 ==> r == (('a' <= c && c <= 'z') || ('A' <= c && c <= 'Z')),
{
    c.is_alphabetic()
}

/// The leading run of letters and spaces.
pub open spec fn name_run(s: Seq<char>) -> Seq<char>
    decreases s.len(),
{
    if s.len() > 0 && (alphabetic_spec(s[0]) || s[0] == ' ') {
        seq![s[0]] + name_run(s.drop_first())
    } else {
        Seq::empty()
    }
}

/// The first position of `p` in `s` at or after `i`.
pub open spec fn find_from(s: Seq<char>, p: Seq<char>, i: int) -> Option<int>
    decreases s.len() + 1 - i,
{
    if i < 0 || i + p.len() > s.len() {
        None
    } else if s.subrange(i, i + p.len()) == p {
        Some(i)
    } else {
        find_from(s, p, i + 1)
    }
}

pub open spec fn send_prefixes() -> Seq<Seq<char>> {
    seq!["send to "@, "share with "@, "send it to "@, "share it with "@]
}

/// The contact named after the first of the send prefixes (from position
/// `i` of the list on) that gives a non-empty name.
pub open spec fn contact_from(s: Seq<char>, i: int) -> Seq<char>
    decreases 4 - i,
{
    if i < 0 || i >= 4 {
        "contact"@
    } else {
        match find_from(s, send_prefixes()[i], 0) {
            Some(pos) => {
                let name = trim_spec(name_run(s.skip(pos + send_prefixes()[i].len())));
                if name.len() > 0 {
                    name
                } else {
                    contact_from(s, i + 1)
                }
            },
            None => contact_from(s, i + 1),
        }
    }
}

pub open spec fn has(s: Seq<char>, p: Seq<char>) -> bool {
    contains_spec(s, p)
}

/// The intent of a normalised utterance `s`, made from the original `input`.
pub open spec fn intent_for(s: Seq<char>, input: Seq<char>) -> IntentView {
    if has(s, "selfie"@) || has(s, "front camera"@) || has(s, "front-facing"@) {
        IntentView::Selfie
    } else if has(s, "gallery"@) || has(s, "photos"@) || has(s, "album"@) {
        IntentView::Gallery
    } else if (has(s, "take"@) || has(s, "photo"@) || has(s, "picture"@) || has(s, "shot"@)) && (has(s, "send"@)
        || has(s, "share"@)) {
        IntentView::CaptureAndSend(CameraLens::Main, contact_from(s, 0))
    } else if has(s, "take"@) || has(s, "photo"@) || has(s, "picture"@) || has(s, "camera"@) || has(s, "shoot"@)
        || has(s, "snap"@) {
        IntentView::Capture(if has(s, "telephoto"@) || has(s, "zoom"@) { CameraLens::Telephoto } else { CameraLens::Main })
    } else {
        IntentView::Unknown(trim_spec(input))
    }
}

fn has_lit(s: &[char], p: &str) -> (r: bool)
    ensures
        r == contains_spec(s@, p@),
{
    let pc = chars_of(p);
    contains(s, pc.as_slice())
}

fn find_lit(s: &[char], p: &[char]) -> (r: Option<usize>)
    ensures
        match r {
            Some(i) => find_from(s@, p@, 0) == Some(i as int) && i + p@.len() <= s@.len(),
            None => find_from(s@, p@, 0) is None,
        },
{
    if p.len() > s.len() {
        return None;
    }
    let last = s.len() - p.len();
    let mut i: usize = 0;
    loop
        invariant
            last + p@.len() == s@.len(),
            i <= last,
            find_from(s@, p@, 0) == find_from(s@, p@, i as int),
        decreases last - i,
    {
        if crate::text::matches_at(s, p, i) {
            return Some(i);
        }
        if i == last {
            assert(find_from(s@, p@, i + 1) is None);
            return None;
        }
        i += 1;
    }
}

fn send_prefix(i: usize) -> (p: &'static str)
    requires
        i < 4,
    ensures
        p@ == send_prefixes()[i as int],
{
    if i == 0 {
        "send to "
    } else if i == 1 {
        "share with "
    } else if i == 2 {
        "send it to "
    } else {
        "share it with "
    }
}

fn name_run_exec(s: &[char]) -> (r: Vec<char>)
    ensures
        r@ == name_run(s@),
{
    let mut i: usize = 0;
    while i < s.len() && (is_alphabetic(s[i]) || s[i] == ' ')
        invariant
            i <= s@.len(),
            forall|k: int| 0 <= k < i ==> alphabetic_spec(s@[k]) || s@[k] == ' ',
        decreases s@.len() - i,
    {
        i += 1;
    }
    let mut r: Vec<char> = Vec::new();
    let mut k: usize = 0;
    while k < i
        invariant
            k <= i <= s@.len(),
            r@ == s@.take(k as int),
        decreases i - k,
    {
        r.push(s[k]);
        proof {
            assert(r@ =~= s@.take(k + 1));
        }
        k += 1;
    }
    proof {
        lemma_name_run(s@, i as int);
    }
    r
}

proof fn lemma_name_run(s: Seq<char>, i: int)
    requires
        0 <= i <= s.len(),
        forall|k: int| 0 <= k < i ==> alphabetic_spec(s[k]) || s[k] == ' ',
        i < s.len() ==> !(alphabetic_spec(s[i]) || s[i] == ' '),
    ensures
        name_run(s) == s.take(i),
    decreases i,
{
    if i == 0 {
        assert(s.take(0) =~= Seq::<char>::empty());
    } else {
        lemma_name_run(s.drop_first(), i - 1);
        assert(seq![s[0]] + s.drop_first().take(i - 1) =~= s.take(i));
    }
}

fn extract_contact(s: &[char]) -> (r: String)
    ensures
        r@ == contact_from(s@, 0),
{
    let mut i: usize = 0;
    while i < 4
        invariant
            i <= 4,
            contact_from(s@, 0) == contact_from(s@, i as int),
        decreases 4 - i,
    {
        let p = chars_of(send_prefix(i));
        match find_lit(s, p.as_slice()) {
            Some(pos) => {
                let n = s.len();
                assert(pos + p@.len() <= n);
                let rest = tail(s, pos + p.len());
                let run = name_run_exec(rest.as_slice());
                let name = trim(run.as_slice());
                if name.len() > 0 {
                    return string_of(name.as_slice());
                }
            },
            None => {},
        }
        i += 1;
    }
    "contact".to_owned()
}

fn lens_name(lens: &CameraLens) -> (r: &'static str)
    ensures
        r@ == match *lens {
            CameraLens::Main => "main"@,
            CameraLens::Telephoto => "telephoto"@,
            CameraLens::Front => "front"@,
        },
{
    match lens {
        CameraLens::Main => "main",
        CameraLens::Telephoto => "telephoto",
        CameraLens::Front => "front",
    }
}

pub open spec fn lens_name_spec(lens: CameraLens) -> Seq<char> {
    match lens {
        CameraLens::Main => "main"@,
        CameraLens::Telephoto => "telephoto"@,
        CameraLens::Front => "front"@,
    }
}

/// The assistant's reply to an intent.
pub open spec fn response_spec(i: IntentView) -> Seq<char> {
    match i {
        IntentView::Capture(lens) => "Opening "@ + lens_name_spec(lens) + " camera..."@,
        IntentView::CaptureAndSend(_, name) => "Taking a photo to send to "@ + name + "..."@,
        IntentView::Selfie => "Opening front camera..."@,
        IntentView::Gallery => "Opening your photos..."@,
        IntentView::Unknown(raw) => "Not sure what you mean by \""@ + raw
            + "\". Try: take a photo, selfie, or open gallery."@,
    }
}

impl CameraIntent {
    /// Parse an utterance into a camera intent.
    pub fn parse(input: &str) -> (r: Self)
        ensures
            r@ == intent_for(lowercase_spec(trim_spec(input@)), input@),
    {
        let sv = trimmed_lowercase(input);
        let s = sv.as_slice();
        if has_lit(s, "selfie") || has_lit(s, "front camera") || has_lit(s, "front-facing") {
            return CameraIntent::Selfie;
        }
        if has_lit(s, "gallery") || has_lit(s, "photos") || has_lit(s, "album") {
            return CameraIntent::Gallery;
        }
        if (has_lit(s, "take") || has_lit(s, "photo") || has_lit(s, "picture") || has_lit(s, "shot")) && (
        has_lit(s, "send") || has_lit(s, "share")) {
            let contact = extract_contact(s);
            return CameraIntent::CaptureAndSend { lens: CameraLens::Main, contact_name: contact };
        }
        if has_lit(s, "take") || has_lit(s, "photo") || has_lit(s, "picture") || has_lit(s, "camera") || has_lit(
            s,
            "shoot",
        ) || has_lit(s, "snap") {
            let lens = if has_lit(s, "telephoto") || has_lit(s, "zoom") {
                CameraLens::Telephoto
            } else {
                CameraLens::Main
            };
            return CameraIntent::Capture { lens };
        }
        let raw = trim(chars_of(input).as_slice());
        CameraIntent::Unknown { raw: string_of(raw.as_slice()) }
    }

    /// The assistant's reply.
    pub fn response(&self) -> (r: String)
        ensures
            r@ == response_spec(self@),
    {
        match self {
            CameraIntent::Capture { lens } => {
                let a = concat_str("Opening ", lens_name(lens));
                concat_str(a.as_str(), " camera...")
            },
            CameraIntent::CaptureAndSend { contact_name, .. } => {
                let a = concat_str("Taking a photo to send to ", contact_name.as_str());
                concat_str(a.as_str(), "...")
            },
            CameraIntent::Selfie => "Opening front camera...".to_owned(),
            CameraIntent::Gallery => "Opening your photos...".to_owned(),
            CameraIntent::Unknown { raw } => {
                let a = concat_str("Not sure what you mean by \"", raw.as_str());
                concat_str(a.as_str(), "\". Try: take a photo, selfie, or open gallery.")
            },
        }
    }
}

/// A camera session across a capture sequence.
pub struct CameraSession {
    pub state: CameraState,
    pub lens: CameraLens,
    pub captures: VecDeque<CameraCapture>,
    pub owner_key: IdentityKey,
}

impl CameraSession {
    pub open spec fn wf(&self) -> bool {
        self.captures@.len() <= MAX_RECENT_CAPTURES
    }

    pub fn new(owner_key: IdentityKey) -> (s: Self)
        ensures
            s.wf(),
            s.state is Idle,
            s.lens == CameraLens::Main,
            s.captures@.len() == 0,
            s.owner_key == owner_key,
    {
        CameraSession { state: CameraState::Idle, lens: CameraLens::Main, captures: VecDeque::new(), owner_key }
    }

    /// Change lens; only an idle camera switches.
    pub fn switch_lens(&mut self, lens: CameraLens)
        ensures
            final(self).lens == (if old(self).state is Idle { lens } else { old(self).lens }),
            final(self).state == old(self).state,
            final(self).captures == old(self).captures,
            final(self).owner_key == old(self).owner_key,
    {
        if self.state.is_ready() {
            self.lens = lens;
        }
    }

    /// Take a photo without hardware: an idle camera records a signed
    /// capture (dropping the oldest past the limit) and is left saved; in
    /// any other state nothing happens.
    pub fn capture_demo(&mut self, keypair: &KeyPair) -> (r: Option<&CameraCapture>)
        requires
            old(self).wf(),
        ensures
            final(self).wf(),
            final(self).owner_key == old(self).owner_key,
            final(self).lens == old(self).lens,
            !(old(self).state is Idle) ==> r is None && final(self).state == old(self).state && final(self).captures
                == old(self).captures,
            old(self).state is Idle ==> {
                &&& final(self).state is Saved
                &&& r is Some
                &&& final(self).captures@.len() > 0
                &&& *r->0 == final(self).captures@.last()
                &&& r->0.lens == old(self).lens
                &&& r->0.id@.len() == 64
                &&& forall|i: int| 0 <= i < 64 ==> lower_hex_digit(#[trigger] r->0.id@[i])
                &&& r->0.width == 4032
                &&& r->0.height == 3024
                &&& r->0.signature@ == ed25519_sign_spec(keypair.secret_spec(), capture_payload_spec(r->0.id@, r->0.timestamp, r->0.storage_path@))
                &&& final(self).captures@.drop_last() == (if old(self).captures@.len() >= MAX_RECENT_CAPTURES {
                    old(self).captures@.drop_first()
                } else {
                    old(self).captures@
                })
            },
    {
        if !self.state.is_ready() {
            return None;
        }
        self.state = CameraState::Capturing;
        self.state = CameraState::Processing;
        let capture = CameraCapture::new(self.lens, 4032, 3024, &self.owner_key, keypair);
        let ghost before = self.captures@;
        if self.captures.len() >= MAX_RECENT_CAPTURES {
            self.captures.pop_front();
        }
        self.captures.push_back(capture);
        self.state = CameraState::Saved;
        assert(self.captures@.drop_last() =~= (if before.len() >= MAX_RECENT_CAPTURES {
            before.drop_first()
        } else {
            before
        }));
        let n = self.captures.len();
        Some(&self.captures[n - 1])
    }

    /// After a save or an error the camera is idle again.
    pub fn reset(&mut self)
        ensures
            final(self).state == (if old(self).state is Saved || old(self).state is Error {
                CameraState::Idle
            } else {
                old(self).state
            }),
            final(self).lens == old(self).lens,
            final(self).captures == old(self).captures,
            final(self).owner_key == old(self).owner_key,
    {
        match self.state {
            CameraState::Saved | CameraState::Error(_) => {
                self.state = CameraState::Idle;
            },
            _ => {},
        }
    }

    pub fn capture_count(&self) -> (r: usize)
        ensures
            r == self.captures@.len(),
    {
        self.captures.len()
    }

    /// The most recent capture.
    pub fn latest(&self) -> (r: Option<&CameraCapture>)
        ensures
            if self.captures@.len() == 0 {
                r is None
            } else {
                r is Some && *r->0 == self.captures@.last()
            },
    {
        let n = self.captures.len();
        if n == 0 {
            None
        } else {
            Some(&self.captures[n - 1])
        }
    }
}

} // verus!
