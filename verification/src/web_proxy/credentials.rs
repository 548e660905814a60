//! Encrypted credentials for web services, sealed under a key derived from
//! the owner's public key.
use vstd::prelude::*;
use vstd::bytes::{spec_u64_to_le_bytes, u64_to_le_bytes};
use vstd::utf8::encode_utf8;
use crate::clock::now_secs;
use crate::primitives::{chacha_open, chacha_seal, chacha_seal_spec, sealable, sha256, sha256_spec};

verus! {

/// An encrypted credential: ChaCha20-Poly1305 ciphertext and tag.
#[derive(Debug, Clone)]
pub struct CredentialEntry {
    pub service: String,
    pub encrypted: Vec<u8>,
    pub counter: u64,
    pub created_at: u64,
    pub last_used_at: u64,
}

pub open spec fn days_between(from: u64, now: u64) -> int {
    if now >= from {
        (now - from) / 86400
    } else {
        0
    }
}

impl CredentialEntry {
    /// A new entry, created and last used now.
    pub fn new(service: String, encrypted: Vec<u8>, counter: u64) -> (e: Self)
        ensures
            e.service == service,
            e.encrypted == encrypted,
            e.counter == counter,
            e.created_at == e.last_used_at,
    {
        let now = now_secs();
        CredentialEntry { service, encrypted, counter, created_at: now, last_used_at: now }
    }

    /// Mark the entry as used now.
    pub fn touch(&mut self)
        ensures
            final(self).service == old(self).service,
            final(self).encrypted == old(self).encrypted,
            final(self).counter == old(self).counter,
            final(self).created_at == old(self).created_at,
    {
        self.last_used_at = now_secs();
    }

    /// Whole days from creation to `now`.
    pub fn age_days_at(&self, now: u64) -> (r: u64)
        ensures
            r == days_between(self.created_at, now),
    {
        now.saturating_sub(self.created_at) / 86400
    }

    /// Whole days since creation, by the system clock.
    pub fn age_days(&self) -> (r: u64)
        ensures
            exists|now: u64| #[trigger] days_between(self.created_at, now) == r,
    {
        let now = now_secs();
        let r = self.age_days_at(now);
        assert(days_between(self.created_at, now) == r);
        r
    }
}

/// Domain label of the storage key.
pub open spec fn credential_key_label() -> Seq<u8> {
    encode_utf8("theos-credential-store-v1"@)
}

/// Domain label of the per-credential nonces.
pub open spec fn credential_nonce_label() -> Seq<u8> {
    encode_utf8("theos-cred-nonce-v1"@)
}

/// The storage key: SHA-256 of the label and the owner's key.
pub open spec fn credential_key_spec(owner: Seq<u8>) -> Seq<u8> {
    sha256_spec(credential_key_label() + owner)
}

/// The nonce of a credential: the first 12 bytes of SHA-256 over the label,
/// the service name and the counter (little-endian).
pub open spec fn credential_nonce_spec(service: Seq<char>, counter: u64) -> Seq<u8> {
    sha256_spec(credential_nonce_label() + encode_utf8(service) + spec_u64_to_le_bytes(counter)).take(12)
}

fn append(out: &mut Vec<u8>, data: &[u8])
    ensures
        final(out)@ == old(out)@ + data@,
{
    let mut i: usize = 0;
    while i < data.len()
        invariant
            i <= data@.len(),
            out@ == old(out)@ + data@.take(i as int),
        decreases data@.len() - i,
    {
        out.push(data[i]);
        proof {
            assert(out@ =~= old(out)@ + data@.take(i + 1));
        }
        i += 1;
    }
    assert(data@.take(data@.len() as int) =~= data@);
}

pub fn derive_credential_key(owner_key: &[u8; 32]) -> (k: [u8; 32])
    ensures
        k@ == credential_key_spec(owner_key@),
{
    let mut msg: Vec<u8> = Vec::new();
    append(&mut msg, "theos-credential-store-v1".as_bytes());
    append(&mut msg, owner_key);
    sha256(msg.as_slice())
}

/// Seal a credential for `service` under a storage key and counter (the
/// form it takes at rest).
pub fn seal_credential(storage_key: &[u8; 32], service: &str, counter: u64, plaintext: &[u8]) -> (ct: Vec<u8>)
    requires
        sealable(plaintext@),
    ensures
        ct@ == chacha_seal_spec(storage_key@, credential_nonce_spec(service@, counter), plaintext@),
{
    let nonce = credential_nonce(service, counter);
    chacha_seal(storage_key, &nonce, plaintext)
}

/// Open a credential sealed by `seal_credential` with the same key,
/// service and counter; `None` for anything else (tampering, another key).
pub fn open_credential(storage_key: &[u8; 32], service: &str, counter: u64, ciphertext: &[u8]) -> (r: Option<Vec<u8>>)
    ensures
        r is Some ==> chacha_seal_spec(storage_key@, credential_nonce_spec(service@, counter), r->0@) == ciphertext@
            && sealable(r->0@),
        forall|p: Seq<u8>|
            sealable(p) && chacha_seal_spec(storage_key@, credential_nonce_spec(service@, counter), p) == ciphertext@
                ==> (r is Some && r->0@ == p),
{
    let nonce = credential_nonce(service, counter);
    chacha_open(storage_key, &nonce, ciphertext)
}

pub fn credential_nonce(service: &str, counter: u64) -> (n: [u8; 12])
    ensures
        n@ == credential_nonce_spec(service@, counter),
{
    let mut msg: Vec<u8> = Vec::new();
    append(&mut msg, "theos-cred-nonce-v1".as_bytes());
    append(&mut msg, service.as_bytes());
    let c = u64_to_le_bytes(counter);
    append(&mut msg, c.as_slice());
    let hash = sha256(msg.as_slice());
    let mut nonce = [0u8; 12];
    let mut i: usize = 0;
    while i < 12
        invariant
            i <= 12,
            hash@.len() == 32,
            forall|k: int| 0 <= k < i ==> nonce@[k] == hash@[k],
        decreases 12 - i,
    {
        nonce[i] = hash[i];
        i += 1;
    }
    assert(nonce@ =~= hash@.take(12));
    nonce
}

/// The services of the entries are distinct.
pub open spec fn distinct_services(v: Seq<CredentialEntry>) -> bool {
    forall|i: int, j: int| 0 <= i < j < v.len() ==> v[i].service@ != v[j].service@
}

/// The ciphertext and counter stored for a service.
pub open spec fn lookup_in(v: Seq<CredentialEntry>, s: Seq<char>) -> Option<(Seq<u8>, u64)> {
    if exists|i: int| 0 <= i < v.len() && v[i].service@ == s {
        let i = choose|i: int| 0 <= i < v.len() && v[i].service@ == s;
        Some((v[i].encrypted@, v[i].counter))
    } else {
        None
    }
}

proof fn lemma_lookup_at(v: Seq<CredentialEntry>, i: int)
    requires
        distinct_services(v),
        0 <= i < v.len(),
    ensures
        lookup_in(v, v[i].service@) == Some((v[i].encrypted@, v[i].counter)),
{
    let s = v[i].service@;
    assert(exists|j: int| 0 <= j < v.len() && v[j].service@ == s);
    let j = choose|j: int| 0 <= j < v.len() && v[j].service@ == s;
    if j < i {
        assert(v[j].service@ != v[i].service@);
    } else if j > i {
        assert(v[i].service@ != v[j].service@);
    }
}

proof fn lemma_lookup_absent(v: Seq<CredentialEntry>, s: Seq<char>)
    requires
        forall|i: int| 0 <= i < v.len() ==> v[i].service@ != s,
    ensures
        lookup_in(v, s) is None,
{
}

/// Encrypted credential storage tied to the owner's key.
pub struct CredentialStore {
    credentials: Vec<CredentialEntry>,
    storage_key: [u8; 32],
    send_counter: u64,
}

impl CredentialStore {
    pub closed spec fn lookup(&self, service: Seq<char>) -> Option<(Seq<u8>, u64)> {
        lookup_in(self.credentials@, service)
    }

    pub closed spec fn key(&self) -> Seq<u8> {
        self.storage_key@
    }

    pub closed spec fn counter(&self) -> u64 {
        self.send_counter
    }

    pub closed spec fn count(&self) -> nat {
        self.credentials@.len()
    }

    pub closed spec fn wf(&self) -> bool {
        distinct_services(self.credentials@)
    }

    /// The stored credential of `service` opens to `plaintext`.
    pub open spec fn holds(&self, service: Seq<char>, plaintext: Seq<u8>) -> bool {
        &&& sealable(plaintext)
        &&& self.lookup(service) matches Some((enc, ctr))
        &&& enc == chacha_seal_spec(self.key(), credential_nonce_spec(service, ctr), plaintext)
    }

    /// An empty store whose key is derived from the owner's key.
    pub fn new(owner_key: [u8; 32]) -> (st: Self)
        ensures
            st.wf(),
            st.key() == credential_key_spec(owner_key@),
            st.counter() == 0,
            st.count() == 0,
            forall|s: Seq<char>| st.lookup(s) is None,
    {
        CredentialStore { credentials: Vec::new(), storage_key: derive_credential_key(&owner_key), send_counter: 0 }
    }

    fn find(&self, service: &str) -> (r: Option<usize>)
        ensures
            match r {
                Some(i) => i < self.credentials@.len() && self.credentials@[i as int].service@ == service@,
                None => forall|i: int| 0 <= i < self.credentials@.len() ==> self.credentials@[i].service@ != service@,
            },
    {
        let target = crate::text::chars_of(service);
        let mut i: usize = 0;
        while i < self.credentials.len()
            invariant
                target@ == service@,
                i <= self.credentials@.len(),
                forall|k: int| 0 <= k < i ==> self.credentials@[k].service@ != service@,
            decreases self.credentials@.len() - i,
        {
            let name = crate::text::chars_of(self.credentials[i].service.as_str());
            if crate::text::chars_eq(name.as_slice(), target.as_slice()) {
                return Some(i);
            }
            i += 1;
        }
        None
    }

    /// Seal `plaintext` under the next counter and keep it for `service`,
    /// replacing what was kept for it.
    pub fn store(&mut self, service: &str, plaintext: &[u8])
        requires
            old(self).wf(),
            old(self).counter() < u64::MAX,
            sealable(plaintext@),
        ensures
            final(self).wf(),
            final(self).key() == old(self).key(),
            final(self).counter() == old(self).counter() + 1,
            final(self).lookup(service@) == Some((
                chacha_seal_spec(old(self).key(), credential_nonce_spec(service@, old(self).counter()), plaintext@),
                old(self).counter(),
            )),
            final(self).holds(service@, plaintext@),
            forall|s: Seq<char>| s != service@ ==> final(self).lookup(s) == old(self).lookup(s),
            final(self).count() == old(self).count() + (if old(self).lookup(service@) is Some { 0int } else { 1int }),
    {
        let counter = self.send_counter;
        self.send_counter = self.send_counter + 1;
        let nonce = credential_nonce(service, counter);
        let encrypted = chacha_seal(&self.storage_key, &nonce, plaintext);
        let entry = CredentialEntry::new(service.to_owned(), encrypted, counter);
        let ghost old_v = self.credentials@;
        match self.find(service) {
            Some(i) => {
                self.credentials.set(i, entry);
                proof {
                    let v = self.credentials@;
                    assert forall|a: int, b: int| 0 <= a < b < v.len() implies v[a].service@ != v[b].service@ by {
                        if a != i && b != i {
                            assert(v[a] == old_v[a] && v[b] == old_v[b]);
                        }
                    }
                    lemma_lookup_at(v, i as int);
                    lemma_lookup_at(old_v, i as int);
                    assert forall|s: Seq<char>| s != service@ implies lookup_in(v, s) == lookup_in(old_v, s) by {
                        if exists|k: int| 0 <= k < old_v.len() && old_v[k].service@ == s {
                            let k = choose|k: int| 0 <= k < old_v.len() && old_v[k].service@ == s;
                            assert(k != i);
                            assert(v[k] == old_v[k]);
                            lemma_lookup_at(old_v, k);
                            lemma_lookup_at(v, k);
                        } else {
                            assert forall|k: int| 0 <= k < v.len() implies v[k].service@ != s by {
                                if k != i {
                                    assert(v[k] == old_v[k]);
                                }
                            }
                        }
                    }
                }
            },
            None => {
                self.credentials.push(entry);
                proof {
                    let v = self.credentials@;
                    assert(v.len() == old_v.len() + 1);
                    assert forall|a: int, b: int| 0 <= a < b < v.len() implies v[a].service@ != v[b].service@ by {
                        if b < old_v.len() {
                            assert(v[a] == old_v[a] && v[b] == old_v[b]);
                        } else {
                            assert(v[a] == old_v[a]);
                        }
                    }
                    lemma_lookup_at(v, old_v.len() as int);
                    lemma_lookup_absent(old_v, service@);
                    assert forall|s: Seq<char>| s != service@ implies lookup_in(v, s) == lookup_in(old_v, s) by {
                        if exists|k: int| 0 <= k < old_v.len() && old_v[k].service@ == s {
                            let k = choose|k: int| 0 <= k < old_v.len() && old_v[k].service@ == s;
                            assert(v[k] == old_v[k]);
                            lemma_lookup_at(old_v, k);
                            lemma_lookup_at(v, k);
                        } else {
                            assert forall|k: int| 0 <= k < v.len() implies v[k].service@ != s by {
                                if k < old_v.len() {
                                    assert(v[k] == old_v[k]);
                                }
                            }
                        }
                    }
                }
            },
        }
    }

    /// Open the credential kept for `service`: `None` when there is none or
    /// when its ciphertext does not authenticate.
    pub fn retrieve(&mut self, service: &str) -> (r: Option<Vec<u8>>)
        requires
            old(self).wf(),
        ensures
            final(self).wf(),
            final(self).key() == old(self).key(),
            final(self).counter() == old(self).counter(),
            final(self).count() == old(self).count(),
            forall|s: Seq<char>| final(self).lookup(s) == old(self).lookup(s),
            old(self).lookup(service@) is None ==> r is None,
            old(self).lookup(service@) matches Some((enc, ctr)) ==> (r is Some ==> chacha_seal_spec(
                old(self).key(),
                credential_nonce_spec(service@, ctr),
                r->0@,
            ) == enc),
            forall|p: Seq<u8>| old(self).holds(service@, p) ==> (r is Some && r->0@ == p),
    {
        match self.find(service) {
            None => {
                proof {
                    lemma_lookup_absent(self.credentials@, service@);
                }
                None
            },
            Some(i) => {
                let ghost old_v = self.credentials@;
                proof {
                    lemma_lookup_at(old_v, i as int);
                }
                self.credentials[i].touch();
                proof {
                    let v = self.credentials@;
                    assert forall|k: int| 0 <= k < v.len() implies v[k].service@ == old_v[k].service@ && v[k].encrypted@
                        == old_v[k].encrypted@ && v[k].counter == old_v[k].counter by {}
                    assert forall|s: Seq<char>| lookup_in(v, s) == lookup_in(old_v, s) by {
                        if exists|k: int| 0 <= k < old_v.len() && old_v[k].service@ == s {
                            let k = choose|k: int| 0 <= k < old_v.len() && old_v[k].service@ == s;
                            lemma_lookup_at(old_v, k);
                            lemma_lookup_at(v, k);
                        } else {
                            assert forall|k: int| 0 <= k < v.len() implies v[k].service@ != s by {
                                assert(v[k].service@ == old_v[k].service@);
                            }
                        }
                    }
                }
                let nonce = credential_nonce(service, self.credentials[i].counter);
                chacha_open(&self.storage_key, &nonce, self.credentials[i].encrypted.as_slice())
            },
        }
    }

    /// A credential is kept for `service`.
    pub fn has_credential(&self, service: &str) -> (r: bool)
        requires
            self.wf(),
        ensures
            r == self.lookup(service@) is Some,
    {
        match self.find(service) {
            Some(i) => {
                proof {
                    lemma_lookup_at(self.credentials@, i as int);
                }
                true
            },
            None => false,
        }
    }

    /// Forget the credential of `service`; whether there was one.
    pub fn remove(&mut self, service: &str) -> (r: bool)
        requires
            old(self).wf(),
        ensures
            final(self).wf(),
            r == old(self).lookup(service@) is Some,
            final(self).lookup(service@) is None,
            forall|s: Seq<char>| s != service@ ==> final(self).lookup(s) == old(self).lookup(s),
            final(self).key() == old(self).key(),
            final(self).counter() == old(self).counter(),
            final(self).count() == old(self).count() - (if r { 1int } else { 0int }),
    {
        match self.find(service) {
            None => {
                proof {
                    lemma_lookup_absent(self.credentials@, service@);
                }
                false
            },
            Some(i) => {
                let ghost old_v = self.credentials@;
                proof {
                    lemma_lookup_at(old_v, i as int);
                }
                self.credentials.remove(i);
                proof {
                    let v = self.credentials@;
                    assert(v =~= old_v.remove(i as int));
                    assert forall|a: int, b: int| 0 <= a < b < v.len() implies v[a].service@ != v[b].service@ by {
                        let oa = if a < i { a } else { a + 1 };
                        let ob = if b < i { b } else { b + 1 };
                        assert(v[a] == old_v[oa] && v[b] == old_v[ob]);
                    }
                    assert forall|k: int| 0 <= k < v.len() implies v[k].service@ != service@ by {
                        let ok = if k < i { k } else { k + 1 };
                        assert(v[k] == old_v[ok]);
                    }
                    lemma_lookup_absent(v, service@);
                    assert forall|s: Seq<char>| s != service@ implies lookup_in(v, s) == lookup_in(old_v, s) by {
                        if exists|k: int| 0 <= k < old_v.len() && old_v[k].service@ == s {
                            let k = choose|k: int| 0 <= k < old_v.len() && old_v[k].service@ == s;
                            assert(k != i);
                            let nk = if k < i { k } else { k - 1 };
                            assert(v[nk] == old_v[k]);
                            lemma_lookup_at(old_v, k);
                            lemma_lookup_at(v, nk);
                        } else {
                            assert forall|k: int| 0 <= k < v.len() implies v[k].service@ != s by {
                                let ok = if k < i { k } else { k + 1 };
                                assert(v[k] == old_v[ok]);
                            }
                        }
                    }
                }
                true
            },
        }
    }

    /// The number of services with a kept credential.
    pub fn service_count(&self) -> (r: usize)
        ensures
            r == self.count(),
    {
        self.credentials.len()
    }
}

} // verus!
