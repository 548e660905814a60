//! Human-readable handles (@name) bound to identity keys by signed
//! announcements: first seen wins, one registration per key per minute,
//! records expire after a day.
use vstd::prelude::*;
use vstd::bytes::{spec_u64_to_le_bytes, u64_to_le_bytes};
use vstd::utf8::encode_utf8;
use crate::clock::now_secs;
use crate::identity::keypair::{ed25519_public_spec, ed25519_sign_spec, ed25519_verify_spec, IdentityKey, KeyPair};
use crate::text::{all_ascii, ascii_lower, chars_eq, chars_of, lowercase_spec, string_of, to_lowercase};

verus! {

pub const HANDLE_TTL_SECS: u64 = 86400;

pub const RATE_LIMIT_SECS: u64 = 60;

pub const MAX_HANDLE_LEN: usize = 32;

pub const MIN_HANDLE_LEN: usize = 3;

#[derive(Debug, Clone, Copy, PartialEq, Eq, Structural)]
pub enum HandleError {
    TooShort,
    TooLong,
    MustStartWithLetter,
    MustBeLowercase,
    InvalidChar(char),
    InvalidSignature,
    HandleTaken,
    RateLimited,
    Expired,
}

impl HandleError {
    /// The error in words.
    pub fn message(&self) -> (s: String)
        ensures
            s@ == match *self {
                HandleError::TooShort => "handle too short (min 3 chars)"@,
                HandleError::TooLong => "handle too long (max 32 chars)"@,
                HandleError::MustStartWithLetter => "handle must start with a letter"@,
                HandleError::MustBeLowercase => "handle must be lowercase"@,
                HandleError::InvalidChar(c) => "invalid character '"@ + seq![c] + "'"@,
                HandleError::InvalidSignature => "invalid signature"@,
                HandleError::HandleTaken => "handle already taken"@,
                HandleError::RateLimited => "rate limited -- wait 60 seconds"@,
                HandleError::Expired => "announcement expired"@,
            },
    {
        match self {
            HandleError::TooShort => "handle too short (min 3 chars)".to_owned(),
            HandleError::TooLong => "handle too long (max 32 chars)".to_owned(),
            HandleError::MustStartWithLetter => "handle must start with a letter".to_owned(),
            HandleError::MustBeLowercase => "handle must be lowercase".to_owned(),
            HandleError::InvalidChar(c) => {
                let mut v = crate::text::chars_of("invalid character '");
                v.push(*c);
                v.push('\'');
                proof {
                    reveal_strlit("'");
                    assert(v@ =~= "invalid character '"@ + seq![*c] + "'"@);
                }
                crate::text::string_of(v.as_slice())
            },
            HandleError::InvalidSignature => "invalid signature".to_owned(),
            HandleError::HandleTaken => "handle already taken".to_owned(),
            HandleError::RateLimited => "rate limited -- wait 60 seconds".to_owned(),
            HandleError::Expired => "announcement expired".to_owned(),
        }
    }
}

pub open spec fn is_ascii_letter(c: char) -> bool {
    ('a' <= c && c <= 'z') || ('A' <= c && c <= 'Z')
}

pub open spec fn handle_char_ok(c: char) -> bool {
    is_ascii_letter(c) || ('0' <= c && c <= '9') || c == '_'
}

/// The first character of `s` at or after `i` that may not stand in a
/// handle.
pub open spec fn first_bad_char(s: Seq<char>, i: int) -> Option<char>
    decreases s.len() - i,
{
    if i < 0 || i >= s.len() {
        None
    } else if !handle_char_ok(s[i]) {
        Some(s[i])
    } else {
        first_bad_char(s, i + 1)
    }
}

/// What `validate_handle` says of a text: 3 to 32 bytes, starting with an
/// ASCII letter, made of ASCII letters, digits and '_', and lower-case.
pub open spec fn handle_check(s: Seq<char>) -> Result<(), HandleError> {
    let n = encode_utf8(s).len();
    if n < MIN_HANDLE_LEN {
        Err(HandleError::TooShort)
    } else if n > MAX_HANDLE_LEN {
        Err(HandleError::TooLong)
    } else if !is_ascii_letter(s[0]) {
        Err(HandleError::MustStartWithLetter)
    } else if first_bad_char(s, 0) is Some {
        Err(HandleError::InvalidChar(first_bad_char(s, 0)->0))
    } else if exists|i: int| 0 <= i < s.len() && 'A' <= s[i] && s[i] <= 'Z' {
        Err(HandleError::MustBeLowercase)
    } else {
        Ok(())
    }
}

proof fn lemma_nonempty_encoding(s: Seq<char>)
    requires
        encode_utf8(s).len() > 0,
    ensures
        s.len() > 0,
{
    if s.len() == 0 {
        assert(encode_utf8(s) =~= Seq::<u8>::empty());
    }
}

/// Check a handle.
pub fn validate_handle(handle: &str) -> (r: Result<(), HandleError>)
    ensures
        r == handle_check(handle@),
{
    let n = handle.as_bytes().len();
    if n < MIN_HANDLE_LEN {
        return Err(HandleError::TooShort);
    }
    if n > MAX_HANDLE_LEN {
        return Err(HandleError::TooLong);
    }
    proof {
        lemma_nonempty_encoding(handle@);
    }
    let cs = chars_of(handle);
    let first = cs[0];
    if !(('a' <= first && first <= 'z') || ('A' <= first && first <= 'Z')) {
        return Err(HandleError::MustStartWithLetter);
    }
    let mut i: usize = 0;
    while i < cs.len()
        invariant
            cs@ == handle@,
            encode_utf8(handle@).len() >= MIN_HANDLE_LEN,
            encode_utf8(handle@).len() <= MAX_HANDLE_LEN,
            cs@.len() > 0,
            is_ascii_letter(handle@[0]),
            i <= cs@.len(),
            first_bad_char(cs@, 0) == first_bad_char(cs@, i as int),
        decreases cs@.len() - i,
    {
        let c = cs[i];
        if !((('a' <= c && c <= 'z') || ('A' <= c && c <= 'Z')) || ('0' <= c && c <= '9') || c == '_') {
            assert(first_bad_char(cs@, i as int) == Some(c));
            return Err(HandleError::InvalidChar(c));
        }
        i += 1;
    }
    proof {
        lemma_no_bad_char(cs@, 0);
    }
    let low = to_lowercase(handle);
    let lc = chars_of(low.as_str());
    if !chars_eq(cs.as_slice(), lc.as_slice()) {
        proof {
            assert(lc@ =~= Seq::new(cs@.len(), |k: int| ascii_lower(cs@[k])));
            if forall|k: int| 0 <= k < cs@.len() ==> !('A' <= cs@[k] && cs@[k] <= 'Z') {
                assert(lc@ =~= cs@);
            }
        }
        return Err(HandleError::MustBeLowercase);
    }
    proof {
        assert forall|k: int| 0 <= k < cs@.len() implies !('A' <= cs@[k] && cs@[k] <= 'Z') by {
            assert(lc@[k] == ascii_lower(cs@[k]));
        }
    }
    Ok(())
}

proof fn lemma_no_bad_char(s: Seq<char>, i: int)
    requires
        0 <= i,
        first_bad_char(s, i) is None,
    ensures
        forall|k: int| i <= k < s.len() ==> handle_char_ok(s[k]) && (s[k] as u32) < 128,
    decreases s.len() - i,
{
    if i < s.len() {
        lemma_no_bad_char(s, i + 1);
    }
}

/// The bytes an announcement's signature covers: handle, key, timestamp
/// (little-endian), the pre-key when there is one, and the label.
pub open spec fn handle_payload_spec(handle: Seq<char>, pubkey: Seq<u8>, timestamp: u64, prekey: Option<Seq<u8>>) -> Seq<u8> {
    encode_utf8(handle) + pubkey + spec_u64_to_le_bytes(timestamp) + match prekey {
        Some(p) => p,
        None => Seq::empty(),
    } + encode_utf8("theos-handle-v2"@)
}

pub open spec fn prekey_view(p: Option<[u8; 32]>) -> Option<Seq<u8>> {
    match p {
        Some(k) => Some(k@),
        None => None,
    }
}

fn append(out: &mut Vec<u8>, data: &[u8])
    ensures
        final(out)@ == old(out)@ + data@,
{
    let mut i: usize = 0;
    while i < data.len()
        invariant
            i <= data@.len(),
            out@ == old(out)@ + data@.take(i as int),
        decreases data@.len() - i,
    {
        out.push(data[i]);
        proof {
            assert(out@ =~= old(out)@ + data@.take(i + 1));
        }
        i += 1;
    }
    assert(data@.take(data@.len() as int) =~= data@);
}

/// A signed claim of a handle.
#[derive(Debug, Clone)]
pub struct HandleAnnouncement {
    pub handle: String,
    pub pubkey: IdentityKey,
    pub timestamp: u64,
    pub signature: Vec<u8>,
    pub expires_at: u64,
    pub prekey: Option<[u8; 32]>,
}

/// Why an announcement is refused at `now`, if it is.
pub open spec fn announcement_refusal(a: HandleAnnouncement, now: u64) -> Option<HandleError> {
    if now > a.expires_at {
        Some(HandleError::Expired)
    } else if !(a.signature@.len() == 64 && ed25519_verify_spec(
        a.pubkey.0@,
        handle_payload_spec(a.handle@, a.pubkey.0@, a.timestamp, prekey_view(a.prekey)),
        a.signature@,
    )) {
        Some(HandleError::InvalidSignature)
    } else {
        None
    }
}

impl HandleAnnouncement {
    fn signing_payload(handle: &str, pubkey: &IdentityKey, timestamp: u64, prekey: Option<&[u8; 32]>) -> (p: Vec<u8>)
        ensures
            p@ == handle_payload_spec(
                handle@,
                pubkey.0@,
                timestamp,
                match prekey {
                    Some(k) => Some(k@),
                    None => None,
                },
            ),
    {
        let mut payload: Vec<u8> = Vec::new();
        append(&mut payload, handle.as_bytes());
        append(&mut payload, &pubkey.0);
        let t = u64_to_le_bytes(timestamp);
        append(&mut payload, t.as_slice());
        match prekey {
            Some(pk) => append(&mut payload, pk),
            None => {
                assert(payload@ + Seq::<u8>::empty() =~= payload@);
            },
        }
        append(&mut payload, "theos-handle-v2".as_bytes());
        payload
    }

    /// A signed announcement made at `now`, optionally publishing a pre-key
    /// (which the signature then covers); a handle that fails validation is
    /// refused.
    pub fn new_with_prekey_at(handle: &str, keypair: &KeyPair, prekey: Option<[u8; 32]>, now: u64) -> (r: Result<Self, HandleError>)
        ensures
            match handle_check(handle@) {
                Err(e) => r == Err::<HandleAnnouncement, HandleError>(e),
                Ok(_) => r is Ok && {
                    let a = r->Ok_0;
                    &&& a.handle@ == handle@
                    &&& a.pubkey.0@ == keypair.public_spec()
                    &&& a.timestamp == now
                    &&& a.expires_at == (if now <= u64::MAX - HANDLE_TTL_SECS { (now + HANDLE_TTL_SECS) as u64 } else { u64::MAX })
                    &&& a.prekey == prekey
                    &&& a.signature@ == ed25519_sign_spec(keypair.secret_spec(), handle_payload_spec(handle@, keypair.public_spec(), now, prekey_view(prekey)))
                    &&& a.signature@.len() == 64
                },
            },
    {
        match validate_handle(handle) {
            Err(e) => return Err(e),
            Ok(()) => {},
        }
        let expires_at = now.saturating_add(HANDLE_TTL_SECS);
        let pk_ref = match &prekey {
            Some(k) => Some(k),
            None => None,
        };
        let public = keypair.public_key();
        let payload = Self::signing_payload(handle, &public, now, pk_ref);
        let signature = keypair.sign(payload.as_slice());
        Ok(HandleAnnouncement {
            handle: handle.to_owned(),
            pubkey: public,
            timestamp: now,
            signature,
            expires_at,
            prekey,
        })
    }

    /// A signed announcement made now, optionally publishing a pre-key.
    pub fn new_with_prekey(handle: &str, keypair: &KeyPair, prekey: Option<[u8; 32]>) -> (r: Result<Self, HandleError>)
        ensures
            match handle_check(handle@) {
                Err(e) => r == Err::<HandleAnnouncement, HandleError>(e),
                Ok(_) => r is Ok && r->Ok_0.handle@ == handle@ && r->Ok_0.pubkey.0@ == keypair.public_spec() && r->Ok_0.prekey
                    == prekey && r->Ok_0.signature@ == ed25519_sign_spec(keypair.secret_spec(), handle_payload_spec(handle@, keypair.public_spec(), r->Ok_0.timestamp, prekey_view(prekey))),
            },
    {
        Self::new_with_prekey_at(handle, keypair, prekey, now_secs())
    }

    /// A signed announcement made now, with no pre-key.
    pub fn new(handle: &str, keypair: &KeyPair) -> (r: Result<Self, HandleError>)
        ensures
            match handle_check(handle@) {
                Err(e) => r == Err::<HandleAnnouncement, HandleError>(e),
                Ok(_) => r is Ok && r->Ok_0.handle@ == handle@ && r->Ok_0.pubkey.0@ == keypair.public_spec() && r->Ok_0.prekey
                    is None,
            },
    {
        Self::new_with_prekey(handle, keypair, None)
    }

    /// Expired at `now`.
    pub fn is_expired_at(&self, now: u64) -> (r: bool)
        ensures
            r == (now > self.expires_at),
    {
        now > self.expires_at
    }

    /// Expired by the clock.
    pub fn is_expired(&self) -> (r: bool)
        ensures
            exists|now: u64| #[trigger] expired_spec(*self, now) == r,
    {
        let now = now_secs();
        let r = self.is_expired_at(now);
        assert(expired_spec(*self, now) == r);
        r
    }

    /// Check the announcement at `now`: not expired, and signed by its key.
    /// An announcement made by the key pair of its key verifies until it
    /// expires.
    pub fn verify_at(&self, now: u64) -> (r: Result<(), HandleError>)
        ensures
            match announcement_refusal(*self, now) {
                Some(e) => r == Err::<(), HandleError>(e),
                None => r is Ok,
            },
            forall|seed: Seq<u8>|
                seed.len() == 32 && now <= self.expires_at && self.signature@.len() == 64 && self.pubkey.0@
                    == ed25519_public_spec(seed) && self.signature@ == ed25519_sign_spec(
                    seed,
                    handle_payload_spec(self.handle@, self.pubkey.0@, self.timestamp, prekey_view(self.prekey)),
                ) ==> r is Ok,
    {
        if self.is_expired_at(now) {
            return Err(HandleError::Expired);
        }
        let pk_ref = match &self.prekey {
            Some(k) => Some(k),
            None => None,
        };
        let payload = Self::signing_payload(self.handle.as_str(), &self.pubkey, self.timestamp, pk_ref);
        if !KeyPair::verify(&self.pubkey, payload.as_slice(), self.signature.as_slice()) {
            return Err(HandleError::InvalidSignature);
        }
        Ok(())
    }

    /// Check the announcement by the clock.
    pub fn verify(&self) -> (r: Result<(), HandleError>)
        ensures
            r is Err ==> r == Err::<(), HandleError>(HandleError::Expired) || r == Err::<(), HandleError>(HandleError::InvalidSignature),
            exists|now: u64| #[trigger] verify_outcome(*self, now) == r,
            r is Ok ==> self.signature@.len() == 64 && ed25519_verify_spec(
                self.pubkey.0@,
                handle_payload_spec(self.handle@, self.pubkey.0@, self.timestamp, prekey_view(self.prekey)),
                self.signature@,
            ),
    {
        let now = now_secs();
        let r = self.verify_at(now);
        proof {
            match r {
                Ok(u) => {
                    assert(u == ());
                },
                Err(_) => {},
            }
            assert(verify_outcome(*self, now) == r);
        }
        r
    }
}

fn keys_equal(a: &IdentityKey, b: &IdentityKey) -> (r: bool)
    ensures
        r == (*a == *b),
{
    let mut i: usize = 0;
    while i < 32
        invariant
            i <= 32,
            forall|k: int| 0 <= k < i ==> a.0@[k] == b.0@[k],
        decreases 32 - i,
    {
        if a.0[i] != b.0[i] {
            return false;
        }
        i += 1;
    }
    assert(a.0 =~= b.0);
    true
}

/// `s` without its leading '@' characters.
pub open spec fn strip_at(s: Seq<char>) -> Seq<char>
    decreases s.len(),
{
    if s.len() > 0 && s[0] == '@' {
        strip_at(s.drop_first())
    } else {
        s
    }
}

/// ASCII text with its letters lower-cased.
pub open spec fn ascii_lowered(s: Seq<char>) -> Seq<char> {
    Seq::new(s.len(), |i: int| ascii_lower(s[i]))
}

/// The registry key of a looked-up handle: leading '@'s removed,
/// lower-cased (`str::to_lowercase`, which on ASCII text lowers exactly the
/// letters A-Z).
pub open spec fn handle_key(s: Seq<char>) -> Seq<char> {
    let t = strip_at(s);
    if all_ascii(t) {
        ascii_lowered(t)
    } else {
        lowercase_spec(t)
    }
}

proof fn lemma_ascii_lower_char(c: char)
    requires
        (c as u32) < 128,
    ensures
        (ascii_lower(c) as u32) < 128,
        ascii_lower(ascii_lower(c)) == ascii_lower(c),
        ascii_lower(c) == '@' <==> c == '@',
{
}

proof fn lemma_strip_at_lowered(s: Seq<char>)
    requires
        all_ascii(s),
    ensures
        strip_at(ascii_lowered(s)) == ascii_lowered(strip_at(s)),
        all_ascii(strip_at(s)),
    decreases s.len(),
{
    let l = ascii_lowered(s);
    if s.len() > 0 {
        lemma_ascii_lower_char(s[0]);
        assert(l[0] == ascii_lower(s[0]));
        if s[0] == '@' {
            assert(l.drop_first() =~= ascii_lowered(s.drop_first()));
            lemma_strip_at_lowered(s.drop_first());
        }
    }
    assert forall|i: int| 0 <= i < strip_at(s).len() implies (strip_at(s)[i] as u32) < 128 by {
        lemma_strip_at_suffix(s);
        let k = s.len() - strip_at(s).len();
        assert(strip_at(s)[i] == s[k + i]);
    }
}

proof fn lemma_strip_at_suffix(s: Seq<char>)
    ensures
        strip_at(s).len() <= s.len(),
        strip_at(s) == s.skip(s.len() - strip_at(s).len()),
    decreases s.len(),
{
    if s.len() > 0 && s[0] == '@' {
        lemma_strip_at_suffix(s.drop_first());
        assert(s.drop_first().skip(s.drop_first().len() - strip_at(s).len()) =~= s.skip(s.len() - strip_at(s).len()));
    } else {
        assert(s.skip(0) =~= s);
    }
}

/// Looking up a handle ignores the case of its ASCII letters and any
/// leading '@': `h`, `h` with its letters lower-cased, and `"@" + h` are
/// filed under the same key, so `resolve`, `is_registered` and the contact
/// resolver answer them alike.
pub proof fn law_handle_lookup_ignores_case_and_at(h: Seq<char>)
    requires
        all_ascii(h),
    ensures
        handle_key(ascii_lowered(h)) == handle_key(h),
        handle_key(seq!['@'] + h) == handle_key(h),
        forall|i: int| 0 <= i < handle_key(h).len() ==> !('A' <= #[trigger] handle_key(h)[i] && handle_key(h)[i] <= 'Z'),
{
    let l = ascii_lowered(h);
    lemma_strip_at_lowered(h);
    let t = strip_at(h);
    assert(all_ascii(l)) by {
        assert forall|i: int| 0 <= i < l.len() implies (l[i] as u32) < 128 by {
            lemma_ascii_lower_char(h[i]);
        }
    }
    lemma_strip_at_lowered(l);
    assert(all_ascii(ascii_lowered(t))) by {
        assert forall|i: int| 0 <= i < t.len() implies (ascii_lowered(t)[i] as u32) < 128 by {
            lemma_ascii_lower_char(t[i]);
        }
    }
    assert(ascii_lowered(ascii_lowered(t)) =~= ascii_lowered(t)) by {
        assert forall|i: int| 0 <= i < t.len() implies ascii_lowered(ascii_lowered(t))[i] == ascii_lowered(t)[i] by {
            lemma_ascii_lower_char(t[i]);
        }
    }
    let a = seq!['@'] + h;
    assert(a.drop_first() =~= h);
    assert forall|i: int| 0 <= i < handle_key(h).len() implies !('A' <= #[trigger] handle_key(h)[i] && handle_key(h)[i] <= 'Z') by {
        lemma_ascii_lower_char(t[i]);
        assert(handle_key(h)[i] == ascii_lower(t[i]));
    }
}

/// The announcement of a handle.
pub open spec fn ann_index(s: Seq<HandleAnnouncement>, h: Seq<char>, i: int) -> Option<int>
    decreases s.len() - i,
{
    if i < 0 || i >= s.len() {
        None
    } else if s[i].handle@ == h {
        Some(i)
    } else {
        ann_index(s, h, i + 1)
    }
}

/// The handle a key owns.
pub open spec fn owner_index(s: Seq<(IdentityKey, String)>, k: IdentityKey, i: int) -> Option<int>
    decreases s.len() - i,
{
    if i < 0 || i >= s.len() {
        None
    } else if s[i].0 == k {
        Some(i)
    } else {
        owner_index(s, k, i + 1)
    }
}

/// When a key last registered.
pub open spec fn last_index(s: Seq<(IdentityKey, u64)>, k: IdentityKey, i: int) -> Option<int>
    decreases s.len() - i,
{
    if i < 0 || i >= s.len() {
        None
    } else if s[i].0 == k {
        Some(i)
    } else {
        last_index(s, k, i + 1)
    }
}

proof fn lemma_ann_index(s: Seq<HandleAnnouncement>, h: Seq<char>, i: int)
    requires
        0 <= i,
    ensures
        ann_index(s, h, i) matches Some(j) ==> i <= j < s.len() && s[j].handle@ == h,
        ann_index(s, h, i) is None ==> forall|k: int| i <= k < s.len() ==> s[k].handle@ != h,
    decreases s.len() - i,
{
    if i < s.len() && s[i].handle@ != h {
        lemma_ann_index(s, h, i + 1);
    }
}

proof fn lemma_ann_found(s: Seq<HandleAnnouncement>, h: Seq<char>, j: int, i: int)
    requires
        0 <= j <= i < s.len(),
        s[i].handle@ == h,
        forall|k: int| j <= k < i ==> s[k].handle@ != h,
    ensures
        ann_index(s, h, j) == Some(i),
    decreases i - j,
{
    if j < i {
        lemma_ann_found(s, h, j + 1, i);
    }
}

proof fn lemma_owner_index(s: Seq<(IdentityKey, String)>, k: IdentityKey, i: int)
    requires
        0 <= i,
    ensures
        owner_index(s, k, i) matches Some(j) ==> i <= j < s.len() && s[j].0 == k && forall|m: int| i <= m < j ==> s[m].0 != k,
        owner_index(s, k, i) is None ==> forall|m: int| i <= m < s.len() ==> s[m].0 != k,
    decreases s.len() - i,
{
    if i < s.len() && s[i].0 != k {
        lemma_owner_index(s, k, i + 1);
    }
}

proof fn lemma_last_index(s: Seq<(IdentityKey, u64)>, k: IdentityKey, i: int)
    requires
        0 <= i,
    ensures
        last_index(s, k, i) matches Some(j) ==> i <= j < s.len() && s[j].0 == k && forall|m: int| i <= m < j ==> s[m].0 != k,
        last_index(s, k, i) is None ==> forall|m: int| i <= m < s.len() ==> s[m].0 != k,
    decreases s.len() - i,
{
    if i < s.len() && s[i].0 != k {
        lemma_last_index(s, k, i + 1);
    }
}

/// Known handles and their keys.
pub struct HandleRegistry {
    pub by_handle: Vec<HandleAnnouncement>,
    pub by_pubkey: Vec<(IdentityKey, String)>,
    pub last_registered: Vec<(IdentityKey, u64)>,
}

/// What `register` decides for an announcement at `now`.
pub open spec fn register_refusal(r: HandleRegistry, a: HandleAnnouncement, now: u64) -> Option<HandleError> {
    match announcement_refusal(a, now) {
        Some(e) => Some(e),
        None => if ann_index(r.by_handle@, a.handle@, 0) matches Some(i) && r.by_handle@[i].pubkey != a.pubkey {
            Some(HandleError::HandleTaken)
        } else if last_index(r.last_registered@, a.pubkey, 0) matches Some(j) && now - r.last_registered@[j].1
            < RATE_LIMIT_SECS {
            Some(HandleError::RateLimited)
        } else {
            None
        },
    }
}

/// A key that moved to another handle no longer holds its old one.
pub open spec fn released_old_handle(before: HandleRegistry, after: HandleRegistry, a: HandleAnnouncement) -> bool {
    match owner_index(before.by_pubkey@, a.pubkey, 0) {
        Some(o) => before.by_pubkey@[o].1@ != a.handle@ ==> ann_index(after.by_handle@, before.by_pubkey@[o].1@, 0) is None,
        None => true,
    }
}

/// The key's last registration, if any, is no later than `now`.
pub open spec fn key_clock_ok(r: HandleRegistry, k: IdentityKey, now: u64) -> bool {
    last_index(r.last_registered@, k, 0) matches Some(j) ==> r.last_registered@[j].1 <= now
}

/// What checking announcement `a` at `now` gives: its refusal, if any.
pub open spec fn verify_outcome(a: HandleAnnouncement, now: u64) -> Result<(), HandleError> {
    match announcement_refusal(a, now) {
        Some(e) => Err(e),
        None => Ok(()),
    }
}

/// Announcement `a` has expired at `now`.
pub open spec fn expired_spec(a: HandleAnnouncement, now: u64) -> bool {
    now > a.expires_at
}

/// What registering `ann` at `now` does to registry `s`, giving `s2` and
/// `r`: a refusal leaves it as it was; otherwise the announcement is kept
/// under its handle, the key's handle and registration time are recorded
/// and its previous other handle is released.
pub open spec fn registered_at(
    s: HandleRegistry,
    s2: HandleRegistry,
    ann: HandleAnnouncement,
    now: u64,
    r: Result<(), HandleError>,
) -> bool {
    match register_refusal(s, ann, now) {
        Some(e) => r == Err::<(), HandleError>(e) && s2 == s,
        None => {
            &&& r is Ok
            &&& ann_index(s2.by_handle@, ann.handle@, 0) matches Some(i) && s2.by_handle@[i] == ann
            &&& owner_index(s2.by_pubkey@, ann.pubkey, 0) matches Some(i) && s2.by_pubkey@[i].1@ == ann.handle@
            &&& last_index(s2.last_registered@, ann.pubkey, 0) matches Some(i) && s2.last_registered@[i].1 == now
            &&& released_old_handle(s, s2, ann)
        },
    }
}

impl HandleRegistry {
    pub open spec fn wf(&self) -> bool {
        &&& forall|i: int, j: int| 0 <= i < j < self.by_handle@.len() ==> self.by_handle@[i].handle@ != self.by_handle@[j].handle@
    }

    pub fn new() -> (r: Self)
        ensures
            r.wf(),
            r.by_handle@.len() == 0,
            r.by_pubkey@.len() == 0,
            r.last_registered@.len() == 0,
    {
        HandleRegistry { by_handle: Vec::new(), by_pubkey: Vec::new(), last_registered: Vec::new() }
    }

    fn find_handle(&self, h: &[char]) -> (r: Option<usize>)
        ensures
            match r {
                Some(i) => ann_index(self.by_handle@, h@, 0) == Some(i as int),
                None => ann_index(self.by_handle@, h@, 0) is None,
            },
    {
        let mut i: usize = 0;
        while i < self.by_handle.len()
            invariant
                i <= self.by_handle@.len(),
                ann_index(self.by_handle@, h@, 0) == ann_index(self.by_handle@, h@, i as int),
            decreases self.by_handle@.len() - i,
        {
            let c = chars_of(self.by_handle[i].handle.as_str());
            if chars_eq(c.as_slice(), h) {
                return Some(i);
            }
            i += 1;
        }
        None
    }

    fn find_owner(&self, k: &IdentityKey) -> (r: Option<usize>)
        ensures
            match r {
                Some(i) => owner_index(self.by_pubkey@, *k, 0) == Some(i as int),
                None => owner_index(self.by_pubkey@, *k, 0) is None,
            },
    {
        let mut i: usize = 0;
        while i < self.by_pubkey.len()
            invariant
                i <= self.by_pubkey@.len(),
                owner_index(self.by_pubkey@, *k, 0) == owner_index(self.by_pubkey@, *k, i as int),
            decreases self.by_pubkey@.len() - i,
        {
            if keys_equal(&self.by_pubkey[i].0, k) {
                return Some(i);
            }
            i += 1;
        }
        None
    }

    fn find_last(&self, k: &IdentityKey) -> (r: Option<usize>)
        ensures
            match r {
                Some(i) => last_index(self.last_registered@, *k, 0) == Some(i as int),
                None => last_index(self.last_registered@, *k, 0) is None,
            },
    {
        let mut i: usize = 0;
        while i < self.last_registered.len()
            invariant
                i <= self.last_registered@.len(),
                last_index(self.last_registered@, *k, 0) == last_index(self.last_registered@, *k, i as int),
            decreases self.last_registered@.len() - i,
        {
            if keys_equal(&self.last_registered[i].0, k) {
                return Some(i);
            }
            i += 1;
        }
        None
    }

    /// Register an announcement at `now`.  It is refused when it is expired
    /// or badly signed, when another key holds the handle (first seen wins),
    /// or when its key registered less than a minute ago.  Otherwise it is
    /// kept under its handle, the key's previous other handle is released,
    /// and the key's handle and registration time are recorded.
    pub fn register_at(&mut self, ann: HandleAnnouncement, now: u64) -> (r: Result<(), HandleError>)
        requires
            old(self).wf(),
            key_clock_ok(*old(self), ann.pubkey, now),
        ensures
            final(self).wf(),
            registered_at(*old(self), *final(self), ann, now, r),
    {
        match ann.verify_at(now) {
            Err(e) => return Err(e),
            Ok(()) => {},
        }
        let hc = chars_of(ann.handle.as_str());
        proof {
            lemma_ann_index(self.by_handle@, ann.handle@, 0);
        }
        match self.find_handle(hc.as_slice()) {
            Some(i) => {
                if !keys_equal(&self.by_handle[i].pubkey, &ann.pubkey) {
                    return Err(HandleError::HandleTaken);
                }
            },
            None => {},
        }
        proof {
            lemma_last_index(self.last_registered@, ann.pubkey, 0);
        }
        let last_pos = self.find_last(&ann.pubkey);
        match last_pos {
            Some(j) => {
                if now - self.last_registered[j].1 < RATE_LIMIT_SECS {
                    return Err(HandleError::RateLimited);
                }
            },
            None => {},
        }
        let ghost old_self = *self;
        proof {
            lemma_owner_index(self.by_pubkey@, ann.pubkey, 0);
        }
        let owner_pos = self.find_owner(&ann.pubkey);
        match owner_pos {
            Some(o) => {
                let oc = chars_of(self.by_pubkey[o].1.as_str());
                if !chars_eq(oc.as_slice(), hc.as_slice()) {
                    proof {
                        lemma_ann_index(self.by_handle@, oc@, 0);
                    }
                    match self.find_handle(oc.as_slice()) {
                        Some(h) => {
                            let ghost before = self.by_handle@;
                            self.by_handle.remove(h);
                            proof {
                                let v = self.by_handle@;
                                assert(v =~= before.remove(h as int));
                                assert forall|a: int, b: int| 0 <= a < b < v.len() implies v[a].handle@ != v[b].handle@ by {
                                    let oa = if a < h { a } else { a + 1 };
                                    let ob = if b < h { b } else { b + 1 };
                                    assert(v[a] == before[oa] && v[b] == before[ob]);
                                }
                                assert forall|k: int| 0 <= k < v.len() implies v[k].handle@ != oc@ by {
                                    let ok = if k < h { k } else { k + 1 };
                                    assert(v[k] == before[ok]);
                                    if ok != h {
                                        assert(before[ok].handle@ != before[h as int].handle@);
                                    }
                                }
                                lemma_ann_index(v, oc@, 0);
                                lemma_ann_absent(v, oc@, 0);
                            }
                        },
                        None => {},
                    }
                }
            },
            None => {},
        }
        let ghost after_removal = self.by_handle@;
        proof {
            if owner_index(old(self).by_pubkey@, ann.pubkey, 0) is Some {
                let o = owner_index(old(self).by_pubkey@, ann.pubkey, 0)->0;
                if old(self).by_pubkey@[o].1@ != ann.handle@ {
                    assert(forall|k: int| 0 <= k < after_removal.len() ==> after_removal[k].handle@ != old(self).by_pubkey@[o].1@);
                }
            }
        }
        // record the registration time
        let ghost before_last = self.last_registered@;
        match last_pos {
            Some(j) => {
                self.last_registered.set(j, (IdentityKey(ann.pubkey.0), now));
                proof {
                    assert forall|m: int| 0 <= m < j implies self.last_registered@[m].0 != ann.pubkey by {
                        assert(self.last_registered@[m] == before_last[m]);
                    }
                    lemma_last_found(self.last_registered@, ann.pubkey, 0, j as int);
                }
            },
            None => {
                self.last_registered.push((IdentityKey(ann.pubkey.0), now));
                proof {
                    assert forall|m: int| 0 <= m < before_last.len() implies self.last_registered@[m].0 != ann.pubkey by {
                        assert(self.last_registered@[m] == before_last[m]);
                    }
                    lemma_last_found(self.last_registered@, ann.pubkey, 0, before_last.len() as int);
                }
            },
        }
        // record the key's handle
        let ghost before_owner = self.by_pubkey@;
        match owner_pos {
            Some(o) => {
                self.by_pubkey.set(o, (IdentityKey(ann.pubkey.0), ann.handle.clone()));
                proof {
                    assert forall|m: int| 0 <= m < o implies self.by_pubkey@[m].0 != ann.pubkey by {
                        assert(self.by_pubkey@[m] == before_owner[m]);
                    }
                    lemma_owner_found(self.by_pubkey@, ann.pubkey, 0, o as int);
                }
            },
            None => {
                self.by_pubkey.push((IdentityKey(ann.pubkey.0), ann.handle.clone()));
                proof {
                    assert forall|m: int| 0 <= m < before_owner.len() implies self.by_pubkey@[m].0 != ann.pubkey by {
                        assert(self.by_pubkey@[m] == before_owner[m]);
                    }
                    lemma_owner_found(self.by_pubkey@, ann.pubkey, 0, before_owner.len() as int);
                }
            },
        }
        // keep the announcement under its handle
        let ghost before_h = self.by_handle@;
        proof {
            lemma_ann_index(self.by_handle@, ann.handle@, 0);
        }
        let ghost removed_old = self.by_handle@;
        match self.find_handle(hc.as_slice()) {
            Some(i) => {
                self.by_handle.set(i, ann);
                proof {
                    let v = self.by_handle@;
                    assert forall|a: int, b: int| 0 <= a < b < v.len() implies v[a].handle@ != v[b].handle@ by {
                        if a != i && b != i {
                            assert(v[a] == before_h[a] && v[b] == before_h[b]);
                        } else if a == i {
                            assert(v[b] == before_h[b]);
                        } else {
                            assert(v[a] == before_h[a]);
                        }
                    }
                    assert forall|m: int| 0 <= m < i implies v[m].handle@ != hc@ by {
                        assert(v[m] == before_h[m]);
                    }
                    lemma_ann_found(v, hc@, 0, i as int);
                }
            },
            None => {
                self.by_handle.push(ann);
                proof {
                    let v = self.by_handle@;
                    assert forall|a: int, b: int| 0 <= a < b < v.len() implies v[a].handle@ != v[b].handle@ by {
                        if b < before_h.len() {
                            assert(v[a] == before_h[a] && v[b] == before_h[b]);
                        } else {
                            assert(v[a] == before_h[a]);
                        }
                    }
                    assert forall|m: int| 0 <= m < before_h.len() implies v[m].handle@ != hc@ by {
                        assert(v[m] == before_h[m]);
                    }
                    lemma_ann_found(v, hc@, 0, before_h.len() as int);
                }
            },
        }
        proof {
            if owner_index(old(self).by_pubkey@, ann.pubkey, 0) is Some {
                let o = owner_index(old(self).by_pubkey@, ann.pubkey, 0)->0;
                let oh = old(self).by_pubkey@[o].1@;
                if oh != ann.handle@ {
                    assert forall|k: int| 0 <= k < self.by_handle@.len() implies self.by_handle@[k].handle@ != oh by {
                        if k < after_removal.len() && self.by_handle@[k] != ann {
                            assert(self.by_handle@[k] == after_removal[k]);
                        }
                    }
                    lemma_ann_absent(self.by_handle@, oh, 0);
                }
            }
        }
        Ok(())
    }

    /// Register an announcement by the clock; a clock reading earlier than
    /// this key's last registration counts as too soon.
    pub fn register(&mut self, ann: HandleAnnouncement) -> (r: Result<(), HandleError>)
        requires
            old(self).wf(),
        ensures
            final(self).wf(),
            last_index(old(self).last_registered@, ann.pubkey, 0) is None ==> exists|now: u64| #[trigger]
                registered_at(*old(self), *final(self), ann, now, r),
            (r == Err::<(), HandleError>(HandleError::RateLimited) && *final(self) == *old(self) && exists|now: u64|
                #![trigger key_clock_ok(*old(self), ann.pubkey, now)]
                !key_clock_ok(*old(self), ann.pubkey, now)) || exists|now: u64| #[trigger]
                registered_at(*old(self), *final(self), ann, now, r),
    {
        let now = now_secs();
        proof {
            lemma_last_index(self.last_registered@, ann.pubkey, 0);
        }
        match self.find_last(&ann.pubkey) {
            Some(j) => {
                if self.last_registered[j].1 > now {
                    assert(!key_clock_ok(*old(self), ann.pubkey, now));
                    return Err(HandleError::RateLimited);
                }
            },
            None => {},
        }
        let r = self.register_at(ann, now);
        proof {
            assert(registered_at(*old(self), *self, ann, now, r));
        }
        r
    }

    fn handle_key_of(handle: &str) -> (k: Vec<char>)
        ensures
            k@ == handle_key(handle@),
            k@ == lowercase_spec(strip_at(handle@)),
    {
        let cs = chars_of(handle);
        let mut i: usize = 0;
        assert(cs@.skip(0) =~= cs@);
        while i < cs.len() && cs[i] == '@'
            invariant
                i <= cs@.len(),
                strip_at(cs@) == strip_at(cs@.skip(i as int)),
            decreases cs@.len() - i,
        {
            proof {
                assert(cs@.skip(i as int).drop_first() =~= cs@.skip(i + 1));
            }
            i += 1;
        }
        let rest = crate::web_proxy::registry::tail(cs.as_slice(), i);
        let rs = string_of(rest.as_slice());
        let low = to_lowercase(rs.as_str());
        proof {
            assert(rest@ == cs@.skip(i as int));
            assert(strip_at(cs@.skip(i as int)) == cs@.skip(i as int));
            if all_ascii(rs@) {
                assert(low@ =~= ascii_lowered(rs@));
            }
        }
        chars_of(low.as_str())
    }

    /// The key holding a handle at `now` ('@' prefixes and case ignored); an
    /// expired record resolves to nothing.
    pub fn resolve_at(&self, handle: &str, now: u64) -> (r: Option<&IdentityKey>)
        ensures
            handle_key(handle@) == lowercase_spec(strip_at(handle@)),
            match ann_index(self.by_handle@, handle_key(handle@), 0) {
                Some(i) => if now > self.by_handle@[i].expires_at {
                    r is None
                } else {
                    r is Some && *r->0 == self.by_handle@[i].pubkey
                },
                None => r is None,
            },
    {
        let k = Self::handle_key_of(handle);
        proof {
            lemma_ann_index(self.by_handle@, k@, 0);
        }
        match self.find_handle(k.as_slice()) {
            Some(i) => {
                if self.by_handle[i].is_expired_at(now) {
                    None
                } else {
                    Some(&self.by_handle[i].pubkey)
                }
            },
            None => None,
        }
    }

    /// The key holding a handle, by the clock.
    pub fn resolve(&self, handle: &str) -> (r: Option<&IdentityKey>)
        ensures
            handle_key(handle@) == lowercase_spec(strip_at(handle@)),
            ann_index(self.by_handle@, handle_key(handle@), 0) is None ==> r is None,
            r is Some ==> ann_index(self.by_handle@, handle_key(handle@), 0) is Some && *r->0 == self.by_handle@[ann_index(self.by_handle@, handle_key(handle@), 0)->0].pubkey,
    {
        self.resolve_at(handle, now_secs())
    }

    /// The handle a key holds.
    pub fn reverse_lookup(&self, pubkey: &IdentityKey) -> (r: Option<&str>)
        ensures
            match owner_index(self.by_pubkey@, *pubkey, 0) {
                Some(i) => r is Some && r->0@ == self.by_pubkey@[i].1@,
                None => r is None,
            },
    {
        proof {
            lemma_owner_index(self.by_pubkey@, *pubkey, 0);
        }
        match self.find_owner(pubkey) {
            Some(i) => Some(self.by_pubkey[i].1.as_str()),
            None => None,
        }
    }

    /// Drop the records expired at `now`, and the key mappings of their
    /// keys.
    pub fn gc_at(&mut self, now: u64)
        requires
            old(self).wf(),
        ensures
            final(self).wf(),
            final(self).by_handle@ == old(self).by_handle@.filter(|a: HandleAnnouncement| !(now > a.expires_at)),
            final(self).by_pubkey@ == old(self).by_pubkey@.filter(|p: (IdentityKey, String)| !expired_key(old(self).by_handle@, p.0, now)),
            final(self).last_registered == old(self).last_registered,
    {
        let ghost keep = |a: HandleAnnouncement| !(now > a.expires_at);
        let mut kept_h: Vec<HandleAnnouncement> = Vec::new();
        let mut expired_keys: Vec<IdentityKey> = Vec::new();
        let mut src_v: Vec<HandleAnnouncement> = Vec::new();
        std::mem::swap(&mut src_v, &mut self.by_handle);
        let ghost src = src_v@;
        let ghost mut i: int = 0;
        while src_v.len() > 0
            invariant
                src == old(self).by_handle@,
                forall|a: int, b: int| 0 <= a < b < src.len() ==> src[a].handle@ != src[b].handle@,
                0 <= i <= src.len(),
                src_v@ == src.skip(i),
                kept_h@ == src.take(i).filter(keep),
                forall|k: int| #![trigger kept_h@[k]] 0 <= k < kept_h@.len() ==> exists|j: int| #![trigger src[j]] 0 <= j < i && kept_h@[k] == src[j],
                forall|a: int, b: int| 0 <= a < b < kept_h@.len() ==> kept_h@[a].handle@ != kept_h@[b].handle@,
                forall|key: IdentityKey| expired_keys@.contains(key) <==> expired_key(src.take(i), key, now),
                forall|a: HandleAnnouncement| #[trigger] keep(a) == !(now > a.expires_at),
            decreases src_v@.len(),
        {
            let ann = src_v.remove(0);
            proof {
                assert(ann == src[i]);
                assert(src.take(i + 1).drop_last() =~= src.take(i));
                reveal(Seq::filter);
                assert(src_v@ =~= src.skip(i + 1));
            }
            if ann.expires_at < now {
                let ghost ek = expired_keys@;
                expired_keys.push(IdentityKey(ann.pubkey.0));
                proof {
                    let t0 = src.take(i);
                    let t1 = src.take(i + 1);
                    assert(expired_keys@ =~= ek.push(ann.pubkey));
                    assert forall|key: IdentityKey| expired_keys@.contains(key) <==> expired_key(t1, key, now) by {
                        assert(ek.contains(key) <==> expired_key(t0, key, now));
                        if key == ann.pubkey {
                            assert(t1[i] == ann);
                            assert(expired_at(t1, key, now, i));
                            assert(expired_keys@[ek.len() as int] == key);
                        } else {
                            if expired_key(t1, key, now) {
                                let j = choose|j: int| #[trigger] expired_at(t1, key, now, j);
                                assert(t1[i] == ann);
                                assert(j != i);
                                assert(t0[j] == t1[j]);
                                assert(expired_at(t0, key, now, j));
                            }
                            if expired_key(t0, key, now) {
                                let j = choose|j: int| #[trigger] expired_at(t0, key, now, j);
                                assert(t0[j] == t1[j]);
                                assert(expired_at(t1, key, now, j));
                            }
                            if expired_keys@.contains(key) {
                                let m = choose|m: int| 0 <= m < expired_keys@.len() && expired_keys@[m] == key;
                                assert(m < ek.len());
                                assert(ek[m] == key);
                            }
                            if ek.contains(key) {
                                let m = choose|m: int| 0 <= m < ek.len() && ek[m] == key;
                                assert(expired_keys@[m] == key);
                            }
                        }
                    }
                }
            } else {
                let ghost kh = kept_h@;
                proof {
                    assert forall|k: int| 0 <= k < kh.len() implies kh[k].handle@ != ann.handle@ by {
                        let j = choose|j: int| 0 <= j < i && kh[k] == src[j];
                    }
                }
                kept_h.push(ann);
                proof {
                    assert forall|k: int| #![trigger kept_h@[k]] 0 <= k < kept_h@.len() implies exists|j: int| #![trigger src[j]] 0 <= j < i + 1 && kept_h@[k] == src[j] by {
                        if k < kh.len() {
                            let j = choose|j: int| 0 <= j < i && kh[k] == src[j];
                            assert(kept_h@[k] == src[j]);
                        } else {
                            assert(kept_h@[k] == src[i]);
                        }
                    }
                    let t0 = src.take(i);
                    let t1 = src.take(i + 1);
                    assert forall|key: IdentityKey| expired_keys@.contains(key) <==> expired_key(t1, key, now) by {
                        assert(expired_keys@.contains(key) <==> expired_key(t0, key, now));
                        if expired_key(t1, key, now) {
                            let j = choose|j: int| #[trigger] expired_at(t1, key, now, j);
                            assert(t1[i] == ann);
                            assert(j != i);
                            assert(t0[j] == t1[j]);
                            assert(expired_at(t0, key, now, j));
                        }
                        if expired_key(t0, key, now) {
                            let j = choose|j: int| #[trigger] expired_at(t0, key, now, j);
                            assert(t0[j] == t1[j]);
                            assert(expired_at(t1, key, now, j));
                        }
                    }
                }
            }
            proof {
                i = i + 1;
            }
        }
        proof {
            assert(src.skip(i).len() == 0);
            assert(src.take(i) =~= src);
        }
        self.by_handle = kept_h;
        let ghost keep_p = |p: (IdentityKey, String)| !expired_key(old(self).by_handle@, p.0, now);
        let mut kept_p: Vec<(IdentityKey, String)> = Vec::new();
        let mut src_p: Vec<(IdentityKey, String)> = Vec::new();
        std::mem::swap(&mut src_p, &mut self.by_pubkey);
        let ghost sp = src_p@;
        let ghost mut j: int = 0;
        while src_p.len() > 0
            invariant
                sp == old(self).by_pubkey@,
                src == old(self).by_handle@,
                forall|key: IdentityKey| expired_keys@.contains(key) <==> expired_key(src, key, now),
                0 <= j <= sp.len(),
                src_p@ == sp.skip(j),
                kept_p@ == sp.take(j).filter(keep_p),
                forall|p: (IdentityKey, String)| #[trigger] keep_p(p) == !expired_key(src, p.0, now),
            decreases src_p@.len(),
        {
            let p = src_p.remove(0);
            proof {
                assert(p == sp[j]);
                assert(sp.take(j + 1).drop_last() =~= sp.take(j));
                reveal(Seq::filter);
                assert(src_p@ =~= sp.skip(j + 1));
            }
            let mut hit = false;
            let mut m: usize = 0;
            while m < expired_keys.len()
                invariant
                    m <= expired_keys@.len(),
                    hit == exists|q: int| 0 <= q < m && expired_keys@[q] == p.0,
                decreases expired_keys@.len() - m,
            {
                if keys_equal(&expired_keys[m], &p.0) {
                    hit = true;
                }
                m += 1;
            }
            if !hit {
                kept_p.push(p);
            }
            proof {
                j = j + 1;
            }
        }
        proof {
            assert(sp.skip(j).len() == 0);
            assert(sp.take(j) =~= sp);
        }
        self.by_pubkey = kept_p;
    }

    /// Drop expired records by the clock.
    pub fn gc(&mut self)
        requires
            old(self).wf(),
        ensures
            final(self).wf(),
    {
        self.gc_at(now_secs());
    }

    pub fn count(&self) -> (r: usize)
        ensures
            r == self.by_handle@.len(),
    {
        self.by_handle.len()
    }

    /// A record exists for the handle ('@' prefixes and case ignored).
    pub fn is_registered(&self, handle: &str) -> (r: bool)
        ensures
            handle_key(handle@) == lowercase_spec(strip_at(handle@)),
            r == ann_index(self.by_handle@, handle_key(handle@), 0) is Some,
    {
        let k = Self::handle_key_of(handle);
        self.find_handle(k.as_slice()).is_some()
    }
}

/// Some announcement of `s` by `key` is expired at `now`.
pub open spec fn expired_key(s: Seq<HandleAnnouncement>, key: IdentityKey, now: u64) -> bool {
    exists|j: int| #[trigger] expired_at(s, key, now, j)
}

/// The announcement at `j` is by `key` and expired at `now`.
pub open spec fn expired_at(s: Seq<HandleAnnouncement>, key: IdentityKey, now: u64, j: int) -> bool {
    0 <= j < s.len() && s[j].pubkey == key && now > s[j].expires_at
}

proof fn lemma_ann_absent(s: Seq<HandleAnnouncement>, h: Seq<char>, i: int)
    requires
        0 <= i,
        forall|k: int| 0 <= k < s.len() ==> s[k].handle@ != h,
    ensures
        ann_index(s, h, i) is None,
    decreases s.len() - i,
{
    if i < s.len() {
        lemma_ann_absent(s, h, i + 1);
    }
}

proof fn lemma_last_found(s: Seq<(IdentityKey, u64)>, k: IdentityKey, j: int, i: int)
    requires
        0 <= j <= i < s.len(),
        s[i].0 == k,
        forall|m: int| j <= m < i ==> s[m].0 != k,
    ensures
        last_index(s, k, j) == Some(i),
    decreases i - j,
{
    if j < i {
        lemma_last_found(s, k, j + 1, i);
    }
}

proof fn lemma_owner_found(s: Seq<(IdentityKey, String)>, k: IdentityKey, j: int, i: int)
    requires
        0 <= j <= i < s.len(),
        s[i].0 == k,
        forall|m: int| j <= m < i ==> s[m].0 != k,
    ensures
        owner_index(s, k, j) == Some(i),
    decreases i - j,
{
    if j < i {
        lemma_owner_found(s, k, j + 1, i);
    }
}

} // verus!
