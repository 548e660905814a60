//! Spoken commands issued while a proxied service is on screen.
use vstd::prelude::*;
use crate::text::{chars_eq, chars_of, contains, contains_spec, lit, starts_with, starts_with_spec, trim, trim_spec};
use crate::web_proxy::blocklist::strip_all;
use crate::web_proxy::registry::{tail, trimmed_lowercase};
use crate::text::lowercase_spec;

verus! {

#[derive(Debug, Clone, Copy, PartialEq, Eq, Structural)]
pub enum ScrollDirection {
    Up,
    Down,
    Left,
    Right,
}

/// A command the sandbox carries out against the page.
#[derive(Debug, Clone, PartialEq)]
pub enum AICommand {
    Navigate { url: String },
    Click { target: String },
    Type { text: String },
    Scroll { direction: ScrollDirection, amount: u32 },
    Screenshot,
    Close,
    Find { query: String },
    Submit,
    Back,
    Refresh,
}

/// A command as plain values.
pub enum CommandView {
    Navigate(Seq<char>),
    Click(Seq<char>),
    Type(Seq<char>),
    Scroll(ScrollDirection, u32),
    Screenshot,
    Close,
    Find(Seq<char>),
    Submit,
    Back,
    Refresh,
}

impl View for AICommand {
    type V = CommandView;

    open spec fn view(&self) -> CommandView {
        match self {
            AICommand::Navigate { url } => CommandView::Navigate(url@),
            AICommand::Click { target } => CommandView::Click(target@),
            AICommand::Type { text } => CommandView::Type(text@),
            AICommand::Scroll { direction, amount } => CommandView::Scroll(*direction, *amount),
            AICommand::Screenshot => CommandView::Screenshot,
            AICommand::Close => CommandView::Close,
            AICommand::Find { query } => CommandView::Find(query@),
            AICommand::Submit => CommandView::Submit,
            AICommand::Back => CommandView::Back,
            AICommand::Refresh => CommandView::Refresh,
        }
    }
}

pub open spec fn has(s: Seq<char>, p: Seq<char>) -> bool {
    contains_spec(s, p)
}

/// Commands particular to the service on screen.
pub open spec fn service_command(s: Seq<char>, svc: Seq<char>) -> Option<CommandView> {
    if svc == "instagram"@ {
        if has(s, "post"@) || has(s, "upload"@) {
            Some(CommandView::Click("new post button"@))
        } else if has(s, "notification"@) || has(s, "tagged"@) {
            Some(CommandView::Click("notifications"@))
        } else if has(s, "search"@) {
            Some(CommandView::Click("search"@))
        } else if has(s, "profile"@) || has(s, "my page"@) {
            Some(CommandView::Click("profile"@))
        } else {
            None
        }
    } else if svc == "youtube"@ {
        if has(s, "search"@) {
            Some(CommandView::Click("search box"@))
        } else if has(s, "pause"@) || has(s, "play"@) {
            Some(CommandView::Click("play pause button"@))
        } else {
            None
        }
    } else if svc == "gmail"@ {
        if has(s, "compose"@) || has(s, "new email"@) || has(s, "write"@) {
            Some(CommandView::Click("compose"@))
        } else if has(s, "inbox"@) {
            Some(CommandView::Navigate("https://mail.google.com/mail/u/0/#inbox"@))
        } else {
            None
        }
    } else if svc == "x"@ || svc == "twitter"@ {
        if has(s, "tweet"@) || has(s, "post"@) {
            Some(CommandView::Click("new post button"@))
        } else if has(s, "search"@) {
            Some(CommandView::Click("search box"@))
        } else if has(s, "notification"@) {
            Some(CommandView::Click("notifications"@))
        } else if has(s, "profile"@) || has(s, "my page"@) {
            Some(CommandView::Click("profile"@))
        } else if has(s, "home"@) || has(s, "feed"@) {
            Some(CommandView::Navigate("https://x.com/home"@))
        } else {
            None
        }
    } else {
        None
    }
}

/// The command a normalised utterance `s` asks for while `svc` is open.
pub open spec fn command_for(s: Seq<char>, svc: Seq<char>) -> Option<CommandView> {
    if (has(s, "go back"@) && has(s, "orb"@)) || has(s, "close"@) || has(s, "exit"@) || has(s, "back to orb"@)
        || has(s, "home"@) {
        Some(CommandView::Close)
    } else if starts_with_spec(s, "go to "@) || starts_with_spec(s, "open "@) || starts_with_spec(s, "navigate to "@) {
        Some(CommandView::Navigate(trim_spec(strip_all(strip_all(strip_all(s, "go to "@), "open "@), "navigate to "@))))
    } else if has(s, "scroll down"@) || has(s, "scroll up"@) {
        Some(CommandView::Scroll(if has(s, "up"@) { ScrollDirection::Up } else { ScrollDirection::Down }, 3))
    } else if has(s, "refresh"@) || has(s, "reload"@) {
        Some(CommandView::Refresh)
    } else if s == "back"@ || s == "go back"@ {
        Some(CommandView::Back)
    } else if service_command(s, svc) is Some {
        service_command(s, svc)
    } else if starts_with_spec(s, "find "@) || starts_with_spec(s, "search for "@) {
        Some(CommandView::Find(trim_spec(strip_all(strip_all(s, "find "@), "search for "@))))
    } else {
        None
    }
}

/// The command an utterance asks for, after trimming and lower-casing it.
pub open spec fn parse_spec(input: Seq<char>, svc: Seq<char>) -> Option<CommandView> {
    command_for(lowercase_spec(trim_spec(input)), svc)
}

fn has_lit(s: &[char], p: &str) -> (r: bool)
    ensures
        r == contains_spec(s@, p@),
{
    let pc = chars_of(p);
    contains(s, pc.as_slice())
}

fn starts_lit(s: &[char], p: &str) -> (r: bool)
    ensures
        r == starts_with_spec(s@, p@),
{
    let pc = chars_of(p);
    starts_with(s, pc.as_slice())
}

fn is_lit(s: &[char], p: &str) -> (r: bool)
    ensures
        r == (s@ == p@),
{
    let pc = chars_of(p);
    chars_eq(s, pc.as_slice())
}

fn strip_lit(s: Vec<char>, p: &str) -> (r: Vec<char>)
    requires
        p@.len() > 0,
    ensures
        r@ == strip_all(s@, p@),
{
    let pc = chars_of(p);
    let mut cur = s;
    while starts_with(cur.as_slice(), pc.as_slice())
        invariant
            pc@ == p@,
            p@.len() > 0,
            strip_all(s@, p@) == strip_all(cur@, p@),
        decreases cur@.len(),
    {
        cur = tail(cur.as_slice(), pc.len());
    }
    cur
}

fn owned(s: &str) -> (r: String)
    ensures
        r@ == s@,
{
    s.to_owned()
}

fn click(target: &str) -> (c: AICommand)
    ensures
        c@ == CommandView::Click(target@),
{
    AICommand::Click { target: owned(target) }
}

fn navigate(url: &str) -> (c: AICommand)
    ensures
        c@ == CommandView::Navigate(url@),
{
    AICommand::Navigate { url: owned(url) }
}

fn service_parse(s: &[char], svc: &str) -> (r: Option<AICommand>)
    ensures
        match service_command(s@, svc@) {
            Some(v) => r is Some && r->0@ == v,
            None => r is None,
        },
{
    let sv = chars_of(svc);
    let svs = sv.as_slice();
    if is_lit(svs, "instagram") {
        if has_lit(s, "post") || has_lit(s, "upload") {
            return Some(click("new post button"));
        }
        if has_lit(s, "notification") || has_lit(s, "tagged") {
            return Some(click("notifications"));
        }
        if has_lit(s, "search") {
            return Some(click("search"));
        }
        if has_lit(s, "profile") || has_lit(s, "my page") {
            return Some(click("profile"));
        }
        None
    } else if is_lit(svs, "youtube") {
        if has_lit(s, "search") {
            return Some(click("search box"));
        }
        if has_lit(s, "pause") || has_lit(s, "play") {
            return Some(click("play pause button"));
        }
        None
    } else if is_lit(svs, "gmail") {
        if has_lit(s, "compose") || has_lit(s, "new email") || has_lit(s, "write") {
            return Some(click("compose"));
        }
        if has_lit(s, "inbox") {
            return Some(navigate("https://mail.google.com/mail/u/0/#inbox"));
        }
        None
    } else if is_lit(svs, "x") || is_lit(svs, "twitter") {
        if has_lit(s, "tweet") || has_lit(s, "post") {
            return Some(click("new post button"));
        }
        if has_lit(s, "search") {
            return Some(click("search box"));
        }
        if has_lit(s, "notification") {
            return Some(click("notifications"));
        }
        if has_lit(s, "profile") || has_lit(s, "my page") {
            return Some(click("profile"));
        }
        if has_lit(s, "home") || has_lit(s, "feed") {
            return Some(navigate("https://x.com/home"));
        }
        None
    } else {
        None
    }
}

impl AICommand {
    /// A command with the same contents.
    pub fn duplicate(&self) -> (d: AICommand)
        ensures
            d@ == self@,
    {
        match self {
            AICommand::Navigate { url } => AICommand::Navigate { url: url.clone() },
            AICommand::Click { target } => AICommand::Click { target: target.clone() },
            AICommand::Type { text } => AICommand::Type { text: text.clone() },
            AICommand::Scroll { direction, amount } => AICommand::Scroll { direction: *direction, amount: *amount },
            AICommand::Screenshot => AICommand::Screenshot,
            AICommand::Close => AICommand::Close,
            AICommand::Find { query } => AICommand::Find { query: query.clone() },
            AICommand::Submit => AICommand::Submit,
            AICommand::Back => AICommand::Back,
            AICommand::Refresh => AICommand::Refresh,
        }
    }

    /// Parse an utterance made while `current_service` is open.
    pub fn parse(input: &str, current_service: &str) -> (r: Option<Self>)
        ensures
            match parse_spec(input@, current_service@) {
                Some(v) => r is Some && r->0@ == v,
                None => r is None,
            },
    {
        let sv = trimmed_lowercase(input);
        let s = sv.as_slice();
        if (has_lit(s, "go back") && has_lit(s, "orb")) || has_lit(s, "close") || has_lit(s, "exit")
            || has_lit(s, "back to orb") || has_lit(s, "home") {
            return Some(AICommand::Close);
        }
        if starts_lit(s, "go to ") || starts_lit(s, "open ") || starts_lit(s, "navigate to ") {
            proof {
                reveal_strlit("go to ");
                reveal_strlit("open ");
                reveal_strlit("navigate to ");
            }
            let a = strip_lit(sv.clone(), "go to ");
            let b = strip_lit(a, "open ");
            let c = strip_lit(b, "navigate to ");
            let url = trim(c.as_slice());
            return Some(AICommand::Navigate { url: crate::text::string_of(url.as_slice()) });
        }
        if has_lit(s, "scroll down") || has_lit(s, "scroll up") {
            let direction = if has_lit(s, "up") {
                ScrollDirection::Up
            } else {
                ScrollDirection::Down
            };
            return Some(AICommand::Scroll { direction, amount: 3 });
        }
        if has_lit(s, "refresh") || has_lit(s, "reload") {
            return Some(AICommand::Refresh);
        }
        if is_lit(s, "back") || is_lit(s, "go back") {
            return Some(AICommand::Back);
        }
        let sc = service_parse(s, current_service);
        if sc.is_some() {
            return sc;
        }
        if starts_lit(s, "find ") || starts_lit(s, "search for ") {
            proof {
                reveal_strlit("find ");
                reveal_strlit("search for ");
            }
            let a = strip_lit(sv.clone(), "find ");
            let b = strip_lit(a, "search for ");
            let query = trim(b.as_slice());
            return Some(AICommand::Find { query: crate::text::string_of(query.as_slice()) });
        }
        None
    }
}

} // verus!
