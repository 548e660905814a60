use theos::web_proxy::credentials::{derive_credential_key, open_credential, seal_credential};
use theos::web_proxy::{
    AICommand, BandwidthStats, CredentialStore, ProxyManager, ProxySession, ProxySessionState,
    ScrollDirection, ServiceCategory, ServiceRegistry, TrackerBlockList, XCredential, XLoginState,
};

/// Share of blocked requests in percent (the floating-point rate is not part
/// of the verified library).
fn block_rate(b: &BandwidthStats) -> f32 {
    let total = b.requests_made + b.requests_blocked;
    if total == 0 { return 0.0; }
    (b.requests_blocked as f32 / total as f32) * 100.0
}

fn owner() -> [u8; 32] { [0xAAu8; 32] }

// ServiceRegistry

#[test]
fn test_resolve_direct() {
    let r = ServiceRegistry::new();
    assert!(r.resolve("instagram").is_some());
    assert!(r.resolve("youtube").is_some());
    assert!(r.resolve("gmail").is_some());
}

#[test]
fn test_resolve_alias() {
    let r = ServiceRegistry::new();
    assert!(r.resolve("ig").is_some());
    assert_eq!(r.resolve("ig").unwrap().name, "instagram");
    assert!(r.resolve("yt").is_some());
    assert_eq!(r.resolve("yt").unwrap().name, "youtube");
}

#[test]
fn test_resolve_with_open_prefix() {
    let r = ServiceRegistry::new();
    assert!(r.resolve("open instagram").is_some());
    assert_eq!(r.resolve("open instagram").unwrap().name, "instagram");
}

#[test]
fn test_resolve_unknown() {
    let r = ServiceRegistry::new();
    assert!(r.resolve("fakebook").is_none());
}

#[test]
fn test_resolve_url_https() {
    let r = ServiceRegistry::new();
    let url = r.resolve_url("https://example.com");
    assert_eq!(url, Some("https://example.com".to_string()));
}

#[test]
fn test_resolve_url_no_scheme() {
    let r = ServiceRegistry::new();
    let url = r.resolve_url("github.com/omarzoghayyer");
    assert_eq!(url, Some("https://github.com/omarzoghayyer".to_string()));
}

#[test]
fn test_service_count() {
    let r = ServiceRegistry::new();
    assert!(r.service_count() >= 10);
}

#[test]
fn test_services_by_category() {
    let r = ServiceRegistry::new();
    let social = r.services_in_category(&ServiceCategory::Social);
    assert!(!social.is_empty());
}

// TrackerBlockList

#[test]
fn test_blocks_google_analytics() {
    let b = TrackerBlockList::new();
    assert!(b.should_block("google-analytics.com"));
    assert!(b.should_block("www.google-analytics.com"));
}

#[test]
fn test_blocks_meta_pixel() {
    let b = TrackerBlockList::new();
    assert!(b.should_block("pixel.facebook.com"));
    assert!(b.should_block("graph.facebook.com"));
}

#[test]
fn test_blocks_doubleclick() {
    let b = TrackerBlockList::new();
    assert!(b.should_block("doubleclick.net"));
}

#[test]
fn test_does_not_block_instagram_content() {
    let b = TrackerBlockList::new();
    assert!(!b.should_block("www.instagram.com"));
    assert!(!b.should_block("cdninstagram.com"));
}

#[test]
fn test_does_not_block_youtube_content() {
    let b = TrackerBlockList::new();
    assert!(!b.should_block("www.youtube.com"));
    assert!(!b.should_block("i.ytimg.com"));
}

#[test]
fn test_blocks_url() {
    let b = TrackerBlockList::new();
    assert!(b.should_block_url("https://google-analytics.com/collect"));
    assert!(!b.should_block_url("https://www.instagram.com/feed"));
}

#[test]
fn test_block_count() {
    let b = TrackerBlockList::new();
    assert!(b.block_count() >= 50);
}

// AICommand parsing

#[test]
fn test_parse_close() {
    assert_eq!(AICommand::parse("go back to orb", "instagram"), Some(AICommand::Close));
    assert_eq!(AICommand::parse("close", "instagram"), Some(AICommand::Close));
}

#[test]
fn test_parse_scroll_down() {
    assert!(matches!(
        AICommand::parse("scroll down", "instagram"),
        Some(AICommand::Scroll { direction: ScrollDirection::Down, .. })
    ));
}

#[test]
fn test_parse_refresh() {
    assert_eq!(AICommand::parse("refresh", "instagram"), Some(AICommand::Refresh));
    assert_eq!(AICommand::parse("reload", "youtube"), Some(AICommand::Refresh));
}

#[test]
fn test_parse_instagram_post() {
    assert!(matches!(
        AICommand::parse("post a photo", "instagram"),
        Some(AICommand::Click { .. })
    ));
}

#[test]
fn test_parse_gmail_compose() {
    assert!(matches!(
        AICommand::parse("compose new email", "gmail"),
        Some(AICommand::Click { .. })
    ));
}

#[test]
fn test_parse_unknown_returns_none() {
    assert_eq!(AICommand::parse("do something weird", "instagram"), None);
}

// CredentialStore

#[test]
fn test_store_and_retrieve() {
    let mut store = CredentialStore::new(owner());
    let cred = b"my_secret_token";
    store.store("instagram", cred);
    assert!(store.has_credential("instagram"));
    let retrieved = store.retrieve("instagram").unwrap();
    assert_eq!(retrieved, cred);
}

#[test]
fn test_retrieve_nonexistent() {
    let mut store = CredentialStore::new(owner());
    assert!(store.retrieve("instagram").is_none());
}

#[test]
fn test_remove_credential() {
    let mut store = CredentialStore::new(owner());
    store.store("instagram", b"token");
    assert!(store.remove("instagram"));
    assert!(!store.has_credential("instagram"));
}

#[test]
fn test_credential_count() {
    let mut store = CredentialStore::new(owner());
    store.store("instagram", b"tok1");
    store.store("gmail", b"tok2");
    assert_eq!(store.service_count(), 2);
}

// ProxySession

#[test]
fn test_session_lifecycle() {
    let mut s = ProxySession::new("instagram", "https://www.instagram.com");
    assert_eq!(s.state, ProxySessionState::Closed);
    s.start_loading();
    assert_eq!(s.state, ProxySessionState::Loading);
    s.on_loaded(Some("Instagram".to_string()));
    assert!(s.state.is_active());
    s.suspend();
    assert_eq!(s.state, ProxySessionState::Suspended);
    s.resume();
    assert!(s.state.is_active());
    s.close();
    assert!(s.state.is_closed());
}

#[test]
fn test_session_command() {
    let mut s = ProxySession::new("instagram", "https://www.instagram.com");
    s.on_loaded(None);
    let cmd = s.handle_command("scroll down");
    assert!(cmd.is_some());
    assert_eq!(s.command_count(), 1);
}

#[test]
fn test_session_bandwidth() {
    let mut s = ProxySession::new("instagram", "https://www.instagram.com");
    s.record_request("https://www.instagram.com/feed", 1024, false);
    s.record_request("https://google-analytics.com/collect", 0, true);
    assert_eq!(s.bandwidth.requests_made, 1);
    assert_eq!(s.bandwidth.requests_blocked, 1);
    assert!(block_rate(&s.bandwidth) > 0.0);
}

// ProxyManager

#[test]
fn test_manager_open_service() {
    let mut m = ProxyManager::new(owner());
    let url = m.open("instagram");
    assert!(url.is_ok());
    assert!(url.unwrap().contains("instagram.com"));
    assert!(m.has_session());
    assert_eq!(m.active_service(), Some("instagram"));
}

#[test]
fn test_manager_open_alias() {
    let mut m = ProxyManager::new(owner());
    let url = m.open("ig");
    assert!(url.is_ok());
    assert_eq!(m.active_service(), Some("instagram"));
}

#[test]
fn test_manager_open_unknown_fails() {
    let mut m = ProxyManager::new(owner());
    assert!(m.open("fakebook").is_err());
}

#[test]
fn test_manager_close() {
    let mut m = ProxyManager::new(owner());
    m.open("instagram").unwrap();
    m.close();
    assert!(!m.has_session());
}

#[test]
fn test_manager_should_block() {
    let m = ProxyManager::new(owner());
    assert!(m.should_block("https://google-analytics.com/collect"));
    assert!(!m.should_block("https://www.instagram.com/feed"));
}

#[test]
fn test_manager_open_url() {
    let mut m = ProxyManager::new(owner());
    let url = m.open_url("github.com/omarzoghayyer");
    assert!(url.is_ok());
    assert!(url.unwrap().starts_with("https://"));
}

#[test]
fn test_manager_replaces_session_on_new_open() {
    let mut m = ProxyManager::new(owner());
    m.open("instagram").unwrap();
    m.open("youtube").unwrap();
    assert_eq!(m.active_service(), Some("youtube"));
}

#[test]
fn test_bandwidth_block_rate() {
    let mut b = BandwidthStats::new();
    b.record_request(1024, false);
    b.record_request(0, true);
    b.record_request(0, true);
    assert!((block_rate(&b) - 66.67).abs() < 1.0);
}

#[test]
fn test_service_category_label() {
    assert_eq!(ServiceCategory::Social.label(), "social");
    assert_eq!(ServiceCategory::Video.label(), "video");
}
fn manager() -> ProxyManager { ProxyManager::new(owner()) }

// XCredential serialization

#[test]
fn test_xcred_roundtrip() {
    let c = XCredential::new("omar", "hunter2");
    let bytes = c.to_bytes();
    let c2 = XCredential::from_bytes(&bytes).unwrap();
    assert_eq!(c2.username, "omar");
    assert_eq!(c2.password, "hunter2");
}

#[test]
fn test_xcred_from_bytes_invalid() {
    assert!(XCredential::from_bytes(b"nocolon").is_none());
    assert!(XCredential::from_bytes(b"").is_none());
    assert!(XCredential::from_bytes(b":nouser").is_none());
    assert!(XCredential::from_bytes(b"user:").is_none());
}

#[test]
fn test_xcred_colon_in_password() {
    // Password can contain colons -- splitn(2) handles this
    let c = XCredential::new("omar", "pass:with:colons");
    let bytes = c.to_bytes();
    let c2 = XCredential::from_bytes(&bytes).unwrap();
    assert_eq!(c2.password, "pass:with:colons");
}

// XLoginState

#[test]
fn test_login_state_labels() {
    assert_eq!(XLoginState::NeedsLogin.label(),       "needs_login");
    assert_eq!(XLoginState::HasCredential.label(),    "has_credential");
    assert_eq!(XLoginState::Authenticated.label(),    "authenticated");
    assert_eq!(XLoginState::Failed("x".to_string()).label(), "failed");
}

#[test]
fn test_login_state_authenticated() {
    assert!( XLoginState::Authenticated.is_authenticated());
    assert!(!XLoginState::NeedsLogin.is_authenticated());
}

#[test]
fn test_login_state_failed() {
    assert!( XLoginState::Failed("bad pw".to_string()).is_failed());
    assert!(!XLoginState::Authenticated.is_failed());
}

// ProxyManager X login flow

#[test]
fn test_no_credential_initially() {
    let m = manager();
    assert!(!m.x_has_credential());
}

#[test]
fn test_store_and_load_credential() {
    let mut m = manager();
    m.x_store_credential("omar", "hunter2");
    assert!(m.x_has_credential());
    let cred = m.x_load_credential().unwrap();
    assert_eq!(cred.username, "omar");
    assert_eq!(cred.password, "hunter2");
}

#[test]
fn test_clear_credential() {
    let mut m = manager();
    m.x_store_credential("omar", "hunter2");
    assert!(m.x_clear_credential());
    assert!(!m.x_has_credential());
}

#[test]
fn test_clear_nonexistent_credential() {
    let mut m = manager();
    assert!(!m.x_clear_credential());
}

#[test]
fn test_open_x_needs_login_when_no_credential() {
    let mut m = manager();
    let (url, state) = m.open_x().unwrap();
    assert!(url.contains("x.com"));
    assert_eq!(state, XLoginState::NeedsLogin);
    assert!(m.has_session());
}

#[test]
fn test_open_x_has_credential_when_stored() {
    let mut m = manager();
    m.x_store_credential("omar", "hunter2");
    let (url, state) = m.open_x().unwrap();
    assert!(url.contains("x.com"));
    assert_eq!(state, XLoginState::HasCredential);
}

#[test]
fn test_autologin_commands_with_credential() {
    let mut m = manager();
    m.x_store_credential("omar", "hunter2");
    let cmds = m.x_autologin_commands().unwrap();
    assert_eq!(cmds.len(), 6);
    // Should contain Type commands with username and password
    let has_username = cmds.iter().any(|c| matches!(c, AICommand::Type { text } if text == "omar"));
    let has_password = cmds.iter().any(|c| matches!(c, AICommand::Type { text } if text == "hunter2"));
    assert!(has_username, "missing username Type command");
    assert!(has_password, "missing password Type command");
}

#[test]
fn test_autologin_commands_no_credential() {
    let mut m = manager();
    assert!(m.x_autologin_commands().is_none());
}

#[test]
fn test_on_authenticated_sets_session_active() {
    let mut m = manager();
    m.x_store_credential("omar", "hunter2");
    m.open_x().unwrap();
    m.x_on_authenticated();
    assert!(m.session_state().unwrap().is_active());
}

#[test]
fn test_on_failed_clears_credential() {
    let mut m = manager();
    m.x_store_credential("omar", "wrongpassword");
    m.open_x().unwrap();
    m.x_on_failed("wrong password");
    // Credential should be cleared so user is prompted again
    assert!(!m.x_has_credential());
}

#[test]
fn test_resolve_x_by_alias() {
    let r = ServiceRegistry::new();
    let entry = r.resolve("twitter").unwrap();
    assert_eq!(entry.name, "x");
    assert!(entry.url.contains("x.com"));
    assert!(entry.requires_auth);
}

#[test]
fn test_resolve_x_direct() {
    let r = ServiceRegistry::new();
    let entry = r.resolve("x").unwrap();
    assert_eq!(entry.name, "x");
    assert!(entry.requires_auth);
}

#[test]
fn test_open_x_creates_session() {
    let mut m = manager();
    m.open_x().unwrap();
    assert_eq!(m.active_service(), Some("x"));
}
#[test]
fn credential_seal_and_open_at_rest() {
    let key = derive_credential_key(&[0xAA; 32]);
    assert_ne!(key, [0xAA; 32]);
    let ct = seal_credential(&key, "x.com", 3, b"token");
    assert_ne!(&ct[..], b"token");
    assert_eq!(ct.len(), 5 + 16);
    assert_eq!(open_credential(&key, "x.com", 3, &ct), Some(b"token".to_vec()));
    assert_eq!(open_credential(&key, "x.com", 4, &ct), None);
    assert_eq!(open_credential(&key, "y.com", 3, &ct), None);
}
