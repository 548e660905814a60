//! The device's proxy manager: one active session, the registry, the block
//! list and the credential store, with the login flow for X.
use vstd::prelude::*;
use vstd::utf8::{decode_utf8, encode_utf8, valid_utf8};
use crate::text::{chars_of, concat_str, string_of};
use crate::primitives::{sealable, utf8_decode};
use crate::web_proxy::blocklist::{blocked_by, extract_domain_spec, first_pos, TrackerBlockList};
use crate::web_proxy::command::{parse_spec, AICommand, CommandView};
use crate::web_proxy::credentials::CredentialStore;
use crate::web_proxy::registry::{clean_name_spec, resolve_index, resolve_url_spec, ServiceRegistry, ServiceView};
use crate::web_proxy::session::{ProxySession, ProxySessionState};
use crate::text::{lowercase_spec, trim_spec};

verus! {

broadcast use vstd::utf8::group_utf8_lib;

/// Where the X login flow stands.
#[derive(Debug, Clone, PartialEq)]
pub enum XLoginState {
    NeedsLogin,
    HasCredential,
    EnteringUsername,
    EnteringPassword,
    Submitting,
    Authenticated,
    Failed(String),
}

impl XLoginState {
    pub fn label(&self) -> (r: &'static str)
        ensures
            r@ == match *self {
                XLoginState::NeedsLogin => "needs_login"@,
                XLoginState::HasCredential => "has_credential"@,
                XLoginState::EnteringUsername => "entering_username"@,
                XLoginState::EnteringPassword => "entering_password"@,
                XLoginState::Submitting => "submitting"@,
                XLoginState::Authenticated => "authenticated"@,
                XLoginState::Failed(_) => "failed"@,
            },
    {
        match self {
            XLoginState::NeedsLogin => "needs_login",
            XLoginState::HasCredential => "has_credential",
            XLoginState::EnteringUsername => "entering_username",
            XLoginState::EnteringPassword => "entering_password",
            XLoginState::Submitting => "submitting",
            XLoginState::Authenticated => "authenticated",
            XLoginState::Failed(_) => "failed",
        }
    }

    pub fn is_authenticated(&self) -> (r: bool)
        ensures
            r == (*self is Authenticated),
    {
        match self {
            XLoginState::Authenticated => true,
            _ => false,
        }
    }

    pub fn is_failed(&self) -> (r: bool)
        ensures
            r == (*self is Failed),
    {
        match self {
            XLoginState::Failed(_) => true,
            _ => false,
        }
    }
}

/// The X login: kept encrypted as the UTF-8 of "username:password".
#[derive(Debug, Clone)]
pub struct XCredential {
    pub username: String,
    pub password: String,
}

/// The blob of a login.
pub open spec fn xcred_blob(username: Seq<char>, password: Seq<char>) -> Seq<u8> {
    encode_utf8(username + seq![':'] + password)
}

/// The login a blob holds: well-formed UTF-8 split at its first ':' into a
/// non-empty username and a non-empty password.
pub open spec fn xcred_parse(b: Seq<u8>) -> Option<(Seq<char>, Seq<char>)> {
    if !valid_utf8(b) {
        None
    } else {
        let s = decode_utf8(b);
        let i = first_pos(s, ':', 0);
        if i >= s.len() {
            None
        } else if i == 0 || i + 1 == s.len() {
            None
        } else {
            Some((s.take(i), s.skip(i + 1)))
        }
    }
}

proof fn lemma_first_pos_at(s: Seq<char>, c: char, i: int, j: int)
    requires
        0 <= i <= j,
        j <= s.len(),
        forall|k: int| i <= k < j ==> s[k] != c,
        j < s.len() ==> s[j] == c,
    ensures
        first_pos(s, c, i) == j,
    decreases j - i,
{
    if i < j {
        lemma_first_pos_at(s, c, i + 1, j);
    }
}

proof fn lemma_first_pos_bound(s: Seq<char>, c: char, i: int)
    requires
        0 <= i <= s.len(),
    ensures
        i <= first_pos(s, c, i) <= s.len(),
        first_pos(s, c, i) < s.len() ==> s[first_pos(s, c, i)] == c,
        forall|k: int| i <= k < first_pos(s, c, i) ==> s[k] != c,
    decreases s.len() - i,
{
    if i < s.len() && s[i] != c {
        lemma_first_pos_bound(s, c, i + 1);
    }
}

/// A login whose username holds no ':' and whose parts are not empty comes
/// back whole from its blob.
pub proof fn law_xcredential_round_trip(username: Seq<char>, password: Seq<char>)
    requires
        !username.contains(':'),
        username.len() > 0,
        password.len() > 0,
    ensures
        xcred_parse(xcred_blob(username, password)) == Some((username, password)),
{
    let s = username + seq![':'] + password;
    assert(decode_utf8(encode_utf8(s)) == s);
    assert forall|k: int| 0 <= k < username.len() implies s[k] != ':' by {
        assert(s[k] == username[k]);
    }
    lemma_first_pos_at(s, ':', 0, username.len() as int);
    assert(s.take(username.len() as int) =~= username);
    assert(s.skip(username.len() + 1int) =~= password);
}

impl XCredential {
    pub fn new(username: &str, password: &str) -> (c: Self)
        ensures
            c.username@ == username@,
            c.password@ == password@,
    {
        XCredential { username: username.to_owned(), password: password.to_owned() }
    }

    /// The blob "username:password" as UTF-8.
    pub fn to_bytes(&self) -> (r: Vec<u8>)
        ensures
            r@ == xcred_blob(self.username@, self.password@),
    {
        let mut v = chars_of(self.username.as_str());
        v.push(':');
        let p = chars_of(self.password.as_str());
        let ghost head = v@;
        let mut i: usize = 0;
        while i < p.len()
            invariant
                i <= p@.len(),
                v@ == head + p@.take(i as int),
            decreases p@.len() - i,
        {
            v.push(p[i]);
            proof {
                assert(v@ =~= head + p@.take(i + 1));
            }
            i += 1;
        }
        assert(p@.take(p@.len() as int) =~= p@);
        assert(v@ =~= self.username@ + seq![':'] + self.password@);
        let s = string_of(v.as_slice());
        vstd::slice::slice_to_vec(s.as_str().as_bytes())
    }

    /// The login in a blob; `None` for a blob that is not UTF-8, has no
    /// ':', or has an empty part.
    pub fn from_bytes(bytes: &[u8]) -> (r: Option<Self>)
        ensures
            match xcred_parse(bytes@) {
                Some((u, p)) => r is Some && r->0.username@ == u && r->0.password@ == p,
                None => r is None,
            },
    {
        let text = match utf8_decode(bytes) {
            Some(t) => t,
            None => return None,
        };
        let s = chars_of(text.as_str());
        let mut i: usize = 0;
        while i < s.len() && s[i] != ':'
            invariant
                i <= s@.len(),
                forall|k: int| 0 <= k < i ==> s@[k] != ':',
            decreases s@.len() - i,
        {
            i += 1;
        }
        proof {
            lemma_first_pos_at(s@, ':', 0, i as int);
        }
        if i >= s.len() || i == 0 || i + 1 == s.len() {
            return None;
        }
        let mut u: Vec<char> = Vec::new();
        let mut k: usize = 0;
        while k < i
            invariant
                k <= i < s@.len(),
                u@ == s@.take(k as int),
            decreases i - k,
        {
            u.push(s[k]);
            proof {
                assert(u@ =~= s@.take(k + 1));
            }
            k += 1;
        }
        let mut p: Vec<char> = Vec::new();
        let mut m: usize = i + 1;
        while m < s.len()
            invariant
                i < m <= s@.len(),
                p@ == s@.subrange(i + 1, m as int),
            decreases s@.len() - m,
        {
            p.push(s[m]);
            proof {
                assert(p@ =~= s@.subrange(i + 1, m + 1));
            }
            m += 1;
        }
        assert(p@ =~= s@.skip(i + 1));
        Some(XCredential { username: string_of(u.as_slice()), password: string_of(p.as_slice()) })
    }
}

/// The device's proxy manager.
pub struct ProxyManager {
    pub registry: ServiceRegistry,
    pub blocklist: TrackerBlockList,
    pub credentials: CredentialStore,
    pub session: Option<ProxySession>,
}

/// The URL a service opens at: its mobile URL when it has one.
pub open spec fn entry_url(e: ServiceView) -> Seq<char> {
    match e.mobile_url {
        Some(m) => m,
        None => e.url,
    }
}

/// The session after the one in `before` was closed by `after`.
pub open spec fn closed_from(before: Option<ProxySession>, after: Option<ProxySession>) -> bool {
    match before {
        Some(s) => after matches Some(t) && t.state is Closed && t.same_but_state(&s),
        None => after is None,
    }
}

/// A fresh session for `service` at `url`, loading.
pub open spec fn fresh_loading(s: Option<ProxySession>, service: Seq<char>, url: Seq<char>) -> bool {
    &&& s matches Some(t)
    &&& t.service@ == service
    &&& t.url@ == url
    &&& t.current_url@ == url
    &&& t.state is Loading
    &&& t.page_title is None
    &&& t.history().len() == 0
}

impl ProxyManager {
    pub open spec fn wf(&self) -> bool {
        self.credentials.wf()
    }

    /// The manager with the default registry and block list, a credential
    /// store for the owner's key and no session.
    pub fn new(owner_key: [u8; 32]) -> (m: Self)
        ensures
            m.wf(),
            m.registry.services() == crate::web_proxy::registry::default_services(),
            m.blocklist.domains_view() == crate::web_proxy::blocklist::default_trackers(),
            m.credentials.key() == crate::web_proxy::credentials::credential_key_spec(owner_key@),
            m.credentials.counter() == 0,
            m.credentials.count() == 0,
            forall|s: Seq<char>| m.credentials.lookup(s) is None,
            m.session is None,
    {
        ProxyManager {
            registry: ServiceRegistry::new(),
            blocklist: TrackerBlockList::new(),
            credentials: CredentialStore::new(owner_key),
            session: None,
        }
    }

    fn close_current(&mut self)
        ensures
            closed_from(old(self).session, final(self).session),
            final(self).registry == old(self).registry,
            final(self).blocklist == old(self).blocklist,
            final(self).credentials == old(self).credentials,
    {
        match &mut self.session {
            Some(s) => s.close(),
            None => {},
        }
    }

    /// Open a service by spoken name.  The current session is closed first;
    /// a name that resolves gets a new loading session and its URL, another
    /// gets an error.
    pub fn open(&mut self, service_name: &str) -> (r: Result<String, String>)
        ensures
            final(self).registry == old(self).registry,
            final(self).blocklist == old(self).blocklist,
            final(self).credentials == old(self).credentials,
            match resolve_index(old(self).registry.services(), clean_name_spec(service_name@)) {
                Some(i) => r is Ok && r->Ok_0@ == entry_url(old(self).registry.services()[i]) && fresh_loading(
                    final(self).session,
                    old(self).registry.services()[i].name,
                    entry_url(old(self).registry.services()[i]),
                ),
                None => r is Err && r->Err_0@ == "unknown service: "@ + service_name@ && closed_from(
                    old(self).session,
                    final(self).session,
                ),
            },
    {
        self.close_current();
        let entry = match self.registry.resolve(service_name) {
            Some(e) => e,
            None => return Err(concat_str("unknown service: ", service_name)),
        };
        let url = match &entry.mobile_url {
            Some(m) => m.clone(),
            None => entry.url.clone(),
        };
        let mut session = ProxySession::new(entry.name.as_str(), url.as_str());
        session.start_loading();
        self.session = Some(session);
        Ok(url)
    }

    /// Open a typed URL in a new "custom" session.
    pub fn open_url(&mut self, url: &str) -> (r: Result<String, String>)
        ensures
            final(self).registry == old(self).registry,
            final(self).blocklist == old(self).blocklist,
            final(self).credentials == old(self).credentials,
            match resolve_url_spec(url@) {
                Some(u) => r is Ok && r->Ok_0@ == u && fresh_loading(final(self).session, "custom"@, u),
                None => r is Err && r->Err_0@ == "cannot resolve URL: "@ + url@ && final(self).session
                    == old(self).session,
            },
    {
        let resolved = match self.registry.resolve_url(url) {
            Some(u) => u,
            None => return Err(concat_str("cannot resolve URL: ", url)),
        };
        self.close_current();
        let mut session = ProxySession::new("custom", resolved.as_str());
        session.start_loading();
        self.session = Some(session);
        Ok(resolved)
    }

    /// Whether the host of a URL is on the block list.
    pub fn should_block(&self, url: &str) -> (r: bool)
        ensures
            r == blocked_by(self.blocklist.domains_view(), lowercase_spec(trim_spec(extract_domain_spec(url@)))),
    {
        self.blocklist.should_block_url(url)
    }

    /// Handle an utterance in the active session; none without a session.
    pub fn handle_command(&mut self, input: &str) -> (r: Option<AICommand>)
        ensures
            final(self).registry == old(self).registry,
            final(self).blocklist == old(self).blocklist,
            final(self).credentials == old(self).credentials,
            match old(self).session {
                None => r is None && final(self).session is None,
                Some(s) => match parse_spec(input@, s.service@) {
                    Some(v) => r is Some && r->0@ == v && final(self).session is Some
                        && final(self).session->0.history() == s.history().push(v),
                    None => r is None && final(self).session is Some && final(self).session->0.history()
                        == s.history(),
                },
            },
    {
        match &mut self.session {
            Some(s) => s.handle_command(input),
            None => None,
        }
    }

    /// Close the active session and drop it.
    pub fn close(&mut self)
        ensures
            final(self).session is None,
            final(self).registry == old(self).registry,
            final(self).blocklist == old(self).blocklist,
            final(self).credentials == old(self).credentials,
    {
        self.close_current();
        self.session = None;
    }

    pub fn has_session(&self) -> (r: bool)
        ensures
            r == self.session is Some,
    {
        self.session.is_some()
    }

    /// The service of the active session.
    pub fn active_service(&self) -> (r: Option<&str>)
        ensures
            match self.session {
                Some(s) => r is Some && r->0@ == s.service@,
                None => r is None,
            },
    {
        match &self.session {
            Some(s) => Some(s.service.as_str()),
            None => None,
        }
    }

    /// The state of the active session.
    pub fn session_state(&self) -> (r: Option<&ProxySessionState>)
        ensures
            match self.session {
                Some(s) => r is Some && *r->0 == s.state,
                None => r is None,
            },
    {
        match &self.session {
            Some(s) => Some(&s.state),
            None => None,
        }
    }

    /// A login for X is kept.
    pub fn x_has_credential(&self) -> (r: bool)
        requires
            self.wf(),
        ensures
            r == self.credentials.lookup("x"@) is Some,
    {
        self.credentials.has_credential("x")
    }

    /// Keep the X login, sealed.
    pub fn x_store_credential(&mut self, username: &str, password: &str)
        requires
            old(self).wf(),
            old(self).credentials.counter() < u64::MAX,
            sealable(xcred_blob(username@, password@)),
        ensures
            final(self).wf(),
            final(self).credentials.holds("x"@, xcred_blob(username@, password@)),
            final(self).credentials.key() == old(self).credentials.key(),
            final(self).credentials.counter() == old(self).credentials.counter() + 1,
            forall|s: Seq<char>| s != "x"@ ==> final(self).credentials.lookup(s) == old(self).credentials.lookup(s),
            final(self).session == old(self).session,
            final(self).registry == old(self).registry,
            final(self).blocklist == old(self).blocklist,
    {
        let cred = XCredential::new(username, password);
        let bytes = cred.to_bytes();
        self.credentials.store("x", bytes.as_slice());
    }

    /// Open and parse the kept X login; `None` when there is none, it does
    /// not authenticate, or it does not parse.
    pub fn x_load_credential(&mut self) -> (r: Option<XCredential>)
        requires
            old(self).wf(),
        ensures
            final(self).wf(),
            final(self).credentials.key() == old(self).credentials.key(),
            final(self).credentials.counter() == old(self).credentials.counter(),
            final(self).credentials.count() == old(self).credentials.count(),
            forall|s: Seq<char>| final(self).credentials.lookup(s) == old(self).credentials.lookup(s),
            final(self).session == old(self).session,
            final(self).registry == old(self).registry,
            final(self).blocklist == old(self).blocklist,
            old(self).credentials.lookup("x"@) is None ==> r is None,
            forall|b: Seq<u8>| old(self).credentials.holds("x"@, b) ==> match xcred_parse(b) {
                Some((u, p)) => r is Some && r->0.username@ == u && r->0.password@ == p,
                None => r is None,
            },
    {
        let bytes = match self.credentials.retrieve("x") {
            Some(b) => b,
            None => return None,
        };
        XCredential::from_bytes(bytes.as_slice())
    }

    /// Forget the X login; whether one was kept.
    pub fn x_clear_credential(&mut self) -> (r: bool)
        requires
            old(self).wf(),
        ensures
            final(self).wf(),
            r == old(self).credentials.lookup("x"@) is Some,
            final(self).credentials.lookup("x"@) is None,
            forall|s: Seq<char>| s != "x"@ ==> final(self).credentials.lookup(s) == old(self).credentials.lookup(s),
            final(self).credentials.key() == old(self).credentials.key(),
            final(self).credentials.counter() == old(self).credentials.counter(),
            final(self).session == old(self).session,
            final(self).registry == old(self).registry,
            final(self).blocklist == old(self).blocklist,
    {
        self.credentials.remove("x")
    }

    /// Open X at its login flow: the state says whether a kept login can be
    /// filled in or the user must be asked.
    pub fn open_x(&mut self) -> (r: Result<(String, XLoginState), String>)
        requires
            old(self).wf(),
        ensures
            final(self).wf(),
            final(self).registry == old(self).registry,
            final(self).blocklist == old(self).blocklist,
            final(self).credentials == old(self).credentials,
            r is Ok,
            r->Ok_0.0@ == "https://x.com/i/flow/login"@,
            r->Ok_0.1 == (if old(self).credentials.lookup("x"@) is Some {
                XLoginState::HasCredential
            } else {
                XLoginState::NeedsLogin
            }),
            fresh_loading(final(self).session, "x"@, "https://x.com/i/flow/login"@),
    {
        self.close_current();
        let url = "https://x.com/i/flow/login".to_owned();
        let state = if self.x_has_credential() {
            XLoginState::HasCredential
        } else {
            XLoginState::NeedsLogin
        };
        let mut session = ProxySession::new("x", url.as_str());
        session.start_loading();
        self.session = Some(session);
        Ok((url, state))
    }

    /// The commands that fill in and submit the kept X login: username,
    /// submit, password, submit.
    pub fn x_autologin_commands(&mut self) -> (r: Option<Vec<AICommand>>)
        requires
            old(self).wf(),
        ensures
            final(self).wf(),
            forall|s: Seq<char>| final(self).credentials.lookup(s) == old(self).credentials.lookup(s),
            final(self).session == old(self).session,
            old(self).credentials.lookup("x"@) is None ==> r is None,
            forall|b: Seq<u8>| old(self).credentials.holds("x"@, b) ==> match xcred_parse(b) {
                Some((u, p)) => r is Some && r->0@.len() == 6 && r->0@[0]@ == CommandView::Click(
                    "username or email field"@,
                ) && r->0@[1]@ == CommandView::Type(u) && r->0@[2]@ == CommandView::Submit && r->0@[3]@
                    == CommandView::Click("password field"@) && r->0@[4]@ == CommandView::Type(p) && r->0@[5]@
                    == CommandView::Submit,
                None => r is None,
            },
    {
        let cred = match self.x_load_credential() {
            Some(c) => c,
            None => return None,
        };
        let mut v: Vec<AICommand> = Vec::new();
        v.push(AICommand::Click { target: "username or email field".to_owned() });
        v.push(AICommand::Type { text: cred.username.clone() });
        v.push(AICommand::Submit);
        v.push(AICommand::Click { target: "password field".to_owned() });
        v.push(AICommand::Type { text: cred.password });
        v.push(AICommand::Submit);
        Some(v)
    }

    /// Login succeeded: the session is active on the home page.
    pub fn x_on_authenticated(&mut self)
        ensures
            final(self).registry == old(self).registry,
            final(self).blocklist == old(self).blocklist,
            final(self).credentials == old(self).credentials,
            match old(self).session {
                Some(s) => final(self).session is Some && final(self).session->0.state is Active
                    && final(self).session->0.page_title is Some && final(self).session->0.page_title->0@
                    == "X / Home"@ && final(self).session->0.service == s.service
                    && final(self).session->0.history() == s.history(),
                None => final(self).session is None,
            },
    {
        match &mut self.session {
            Some(s) => s.on_loaded(Some("X / Home".to_owned())),
            None => {},
        }
    }

    /// Login failed: the kept login is dropped so the user is asked again,
    /// and the session shows the error.
    pub fn x_on_failed(&mut self, reason: &str)
        requires
            old(self).wf(),
        ensures
            final(self).wf(),
            final(self).credentials.lookup("x"@) is None,
            forall|s: Seq<char>| s != "x"@ ==> final(self).credentials.lookup(s) == old(self).credentials.lookup(s),
            final(self).registry == old(self).registry,
            final(self).blocklist == old(self).blocklist,
            match old(self).session {
                Some(s) => final(self).session is Some && final(self).session->0.state is Error
                    && final(self).session->0.state->Error_0@ == "X login failed: "@ + reason@
                    && final(self).session->0.same_but_state(&s),
                None => final(self).session is None,
            },
    {
        self.x_clear_credential();
        match &mut self.session {
            Some(s) => s.on_error(concat_str("X login failed: ", reason)),
            None => {},
        }
    }
}

} // verus!
