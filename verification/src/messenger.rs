//! The messenger's data model: conversations, messages, delivery states and
//! typing indicators.
use vstd::prelude::*;
use crate::clock::now_secs;
use crate::identity::keypair::IdentityKey;
use crate::text::{chars_of, string_of, trim, trim_spec};
use vstd::utf8::encode_utf8;

verus! {

/// Messages kept per conversation; older ones are dropped.
pub const MAX_MESSAGES_PER_CONV: usize = 500;

/// Seconds after which a typing indicator expires.
pub const TYPING_TIMEOUT_SECS: u64 = 5;

/// Longest message text, in UTF-8 bytes.
pub const MAX_MESSAGE_LEN: usize = 4096;

#[derive(Debug, Clone, Copy, PartialEq, Eq, Structural)]
pub enum DeliveryState {
    Sending,
    Sent,
    Delivered,
    Read,
    Failed,
}

impl DeliveryState {
    pub fn label(&self) -> (r: &'static str)
        ensures
            r@ == match *self {
                DeliveryState::Sending => "sending"@,
                DeliveryState::Sent => "sent"@,
                DeliveryState::Delivered => "delivered"@,
                DeliveryState::Read => "read"@,
                DeliveryState::Failed => "failed"@,
            },
    {
        match self {
            DeliveryState::Sending => "sending",
            DeliveryState::Sent => "sent",
            DeliveryState::Delivered => "delivered",
            DeliveryState::Read => "read",
            DeliveryState::Failed => "failed",
        }
    }

    /// The status mark shown beside a sent message.
    pub fn icon(&self) -> (r: &'static str)
        ensures
            r@ == match *self {
                DeliveryState::Sending => "o"@,
                DeliveryState::Sent => "v"@,
                DeliveryState::Delivered => "vv"@,
                DeliveryState::Read => "VV"@,
                DeliveryState::Failed => "!"@,
            },
    {
        match self {
            DeliveryState::Sending => "o",
            DeliveryState::Sent => "v",
            DeliveryState::Delivered => "vv",
            DeliveryState::Read => "VV",
            DeliveryState::Failed => "!",
        }
    }
}

#[derive(Debug, Clone, Copy, PartialEq, Eq, Structural)]
pub enum MessageKind {
    Text,
}

#[derive(Debug, Clone, Copy, PartialEq, Eq, Structural)]
pub enum MessengerError {
    EmptyMessage,
    MessageTooLong,
    MessageNotFound,
    ConversationNotFound,
}

impl MessengerError {
    /// The text shown for the error.
    pub fn message(&self) -> (r: &'static str)
        ensures
            r@ == match *self {
                MessengerError::EmptyMessage => "message cannot be empty"@,
                MessengerError::MessageTooLong => "message too long (max 4096 chars)"@,
                MessengerError::MessageNotFound => "message not found"@,
                MessengerError::ConversationNotFound => "conversation not found"@,
            },
    {
        match self {
            MessengerError::EmptyMessage => "message cannot be empty",
            MessengerError::MessageTooLong => "message too long (max 4096 chars)",
            MessengerError::MessageNotFound => "message not found",
            MessengerError::ConversationNotFound => "conversation not found",
        }
    }
}

#[derive(Debug, Clone, PartialEq)]
pub struct Message {
    pub id: u64,
    pub text: String,
    pub from_me: bool,
    pub timestamp: u64,
    pub state: DeliveryState,
    pub kind: MessageKind,
    pub edited: bool,
}

/// Why a message text is refused: blank after trimming, or longer than
/// `MAX_MESSAGE_LEN` UTF-8 bytes before trimming.
pub open spec fn text_refusal(text: Seq<char>) -> Option<MessengerError> {
    if trim_spec(text).len() == 0 {
        Some(MessengerError::EmptyMessage)
    } else if encode_utf8(text).len() > MAX_MESSAGE_LEN {
        Some(MessengerError::MessageTooLong)
    } else {
        None
    }
}

/// `m` is a new message with this id and text, in this direction.
pub open spec fn fresh_message(m: Message, id: u64, text: Seq<char>, from_me: bool) -> bool {
    &&& m.id == id
    &&& m.text@ == trim_spec(text)
    &&& m.from_me == from_me
    &&& m.state == (if from_me { DeliveryState::Sending } else { DeliveryState::Delivered })
    &&& m.kind == MessageKind::Text
    &&& !m.edited
}

fn check_text(text: &String) -> (r: Option<MessengerError>)
    ensures
        r == text_refusal(text@),
{
    let t = trim(chars_of(text.as_str()).as_slice());
    if t.len() == 0 {
        return Some(MessengerError::EmptyMessage);
    }
    if text.as_str().as_bytes().len() > MAX_MESSAGE_LEN {
        return Some(MessengerError::MessageTooLong);
    }
    None
}

fn make_message(id: u64, text: String, from_me: bool) -> (r: Result<Message, MessengerError>)
    ensures
        match text_refusal(text@) {
            Some(e) => r == Err::<Message, MessengerError>(e),
            None => r is Ok && fresh_message(r->Ok_0, id, text@, from_me),
        },
{
    match check_text(&text) {
        Some(e) => Err(e),
        None => {
            let t = trim(chars_of(text.as_str()).as_slice());
            Ok(Message {
                id,
                text: string_of(t.as_slice()),
                from_me,
                timestamp: now_secs(),
                state: if from_me {
                    DeliveryState::Sending
                } else {
                    DeliveryState::Delivered
                },
                kind: MessageKind::Text,
                edited: false,
            })
        },
    }
}

impl Message {
    /// A message we send, stamped now and waiting to go out.
    pub fn outgoing(id: u64, text: String) -> (r: Result<Self, MessengerError>)
        ensures
            match text_refusal(text@) {
                Some(e) => r == Err::<Message, MessengerError>(e),
                None => r is Ok && fresh_message(r->Ok_0, id, text@, true),
            },
    {
        make_message(id, text, true)
    }

    /// A message we received, stamped now and already delivered.
    pub fn incoming(id: u64, text: String) -> (r: Result<Self, MessengerError>)
        ensures
            match text_refusal(text@) {
                Some(e) => r == Err::<Message, MessengerError>(e),
                None => r is Ok && fresh_message(r->Ok_0, id, text@, false),
            },
    {
        make_message(id, text, false)
    }
}

/// `s` after a message was appended and, past the cap, the oldest dropped:
/// the kept prefix of the old messages.
pub open spec fn kept_before_push(s: Seq<Message>) -> Seq<Message> {
    if s.len() >= MAX_MESSAGES_PER_CONV {
        s.drop_first()
    } else {
        s
    }
}

/// The first message we sent with this id, at or after position `i`.
pub open spec fn own_message_from(s: Seq<Message>, id: u64, i: int) -> Option<int>
    decreases s.len() - i,
{
    if i < 0 || i >= s.len() {
        None
    } else if s[i].id == id && s[i].from_me {
        Some(i)
    } else {
        own_message_from(s, id, i + 1)
    }
}

/// A message after the conversation was read: our delivered messages are
/// read.
pub open spec fn read_upgrade(m: Message) -> Message {
    if m.from_me && m.state == DeliveryState::Delivered {
        Message { state: DeliveryState::Read, ..m }
    } else {
        m
    }
}

#[derive(Debug, Clone)]
pub struct Conversation {
    pub contact_key: IdentityKey,
    pub contact_name: String,
    pub messages: Vec<Message>,
    pub unread_count: usize,
    pub typing: bool,
    pub typing_since: Option<u64>,
    pub next_id: u64,
}

/// Only the messages changed.
pub open spec fn same_but_messages(a: Conversation, b: Conversation) -> bool {
    &&& a.contact_key == b.contact_key
    &&& a.contact_name == b.contact_name
    &&& a.unread_count == b.unread_count
    &&& a.typing == b.typing
    &&& a.typing_since == b.typing_since
    &&& a.next_id == b.next_id
}

/// A new conversation with a contact.
pub open spec fn fresh_conversation(c: Conversation, key: IdentityKey, name: Seq<char>) -> bool {
    &&& c.contact_key == key
    &&& c.contact_name@ == name
    &&& c.messages@.len() == 0
    &&& c.unread_count == 0
    &&& !c.typing
    &&& c.typing_since is None
    &&& c.next_id == 1
}

fn owned_name(s: &str) -> (r: String)
    ensures
        r@ == s@,
{
    s.to_owned()
}

/// The typing indicator of `c`, at clock reading `now` (no earlier than
/// the indicator's start), as `c2` holds it: dropped once older than the
/// timeout, otherwise as it was.
pub open spec fn typing_ticked(c: Conversation, c2: Conversation, now: u64) -> bool {
    match c.typing_since {
        Some(since) => since <= now && if now - since > TYPING_TIMEOUT_SECS {
            !c2.typing && c2.typing_since is None
        } else {
            c2.typing == c.typing && c2.typing_since == c.typing_since
        },
        None => c2.typing == c.typing && c2.typing_since is None,
    }
}

impl Conversation {
    pub open spec fn wf(&self) -> bool {
        self.messages@.len() <= MAX_MESSAGES_PER_CONV
    }

    pub fn new(contact_key: IdentityKey, contact_name: String) -> (c: Self)
        ensures
            fresh_conversation(c, contact_key, contact_name@),
            c.wf(),
    {
        Conversation {
            contact_key,
            contact_name,
            messages: Vec::new(),
            unread_count: 0,
            typing: false,
            typing_since: None,
            next_id: 1,
        }
    }

    fn push_capped(&mut self, msg: Message)
        requires
            old(self).wf(),
        ensures
            final(self).wf(),
            final(self).messages@ == kept_before_push(old(self).messages@).push(msg),
            same_but_messages(*final(self), *old(self)),
    {
        self.messages.push(msg);
        if self.messages.len() > MAX_MESSAGES_PER_CONV {
            self.messages.remove(0);
        }
        assert(self.messages@ =~= kept_before_push(old(self).messages@).push(msg));
    }

    /// Send a message; its id comes back.
    pub fn send(&mut self, text: String) -> (r: Result<u64, MessengerError>)
        requires
            old(self).wf(),
            old(self).next_id < u64::MAX,
        ensures
            final(self).wf(),
            match text_refusal(text@) {
                Some(e) => r == Err::<u64, MessengerError>(e) && *final(self) == *old(self),
                None => {
                    &&& r == Ok::<u64, MessengerError>(old(self).next_id)
                    &&& final(self).next_id == old(self).next_id + 1
                    &&& final(self).messages@.drop_last() == kept_before_push(old(self).messages@)
                    &&& final(self).messages@.len() > 0
                    &&& fresh_message(final(self).messages@.last(), old(self).next_id, text@, true)
                    &&& final(self).contact_key == old(self).contact_key
                    &&& final(self).contact_name == old(self).contact_name
                    &&& final(self).unread_count == old(self).unread_count
                    &&& final(self).typing == old(self).typing
                    &&& final(self).typing_since == old(self).typing_since
                },
            },
    {
        let id = self.next_id;
        let msg = match Message::outgoing(id, text) {
            Ok(m) => m,
            Err(e) => return Err(e),
        };
        self.next_id = self.next_id + 1;
        let ghost before = *self;
        self.push_capped(msg);
        assert(self.messages@.drop_last() =~= kept_before_push(before.messages@));
        Ok(id)
    }

    /// Receive a message: it counts as unread and ends the typing indicator.
    pub fn receive(&mut self, text: String) -> (r: Result<u64, MessengerError>)
        requires
            old(self).wf(),
            old(self).next_id < u64::MAX,
            old(self).unread_count < usize::MAX,
        ensures
            final(self).wf(),
            match text_refusal(text@) {
                Some(e) => r == Err::<u64, MessengerError>(e) && *final(self) == *old(self),
                None => {
                    &&& r == Ok::<u64, MessengerError>(old(self).next_id)
                    &&& final(self).next_id == old(self).next_id + 1
                    &&& final(self).unread_count == old(self).unread_count + 1
                    &&& !final(self).typing
                    &&& final(self).typing_since is None
                    &&& final(self).messages@.drop_last() == kept_before_push(old(self).messages@)
                    &&& final(self).messages@.len() > 0
                    &&& fresh_message(final(self).messages@.last(), old(self).next_id, text@, false)
                    &&& final(self).contact_key == old(self).contact_key
                    &&& final(self).contact_name == old(self).contact_name
                },
            },
    {
        let id = self.next_id;
        let msg = match Message::incoming(id, text) {
            Ok(m) => m,
            Err(e) => return Err(e),
        };
        self.next_id = self.next_id + 1;
        self.unread_count = self.unread_count + 1;
        self.typing = false;
        self.typing_since = None;
        let ghost before = *self;
        self.push_capped(msg);
        assert(self.messages@.drop_last() =~= kept_before_push(before.messages@));
        Ok(id)
    }

    /// Set the delivery state of the first message we sent with this id.
    pub fn update_delivery(&mut self, id: u64, state: DeliveryState) -> (r: Result<(), MessengerError>)
        ensures
            same_but_messages(*final(self), *old(self)),
            match own_message_from(old(self).messages@, id, 0) {
                Some(i) => r is Ok && final(self).messages@ == old(self).messages@.update(
                    i,
                    Message { state, ..old(self).messages@[i] },
                ),
                None => r == Err::<(), MessengerError>(MessengerError::MessageNotFound) && final(self).messages@
                    == old(self).messages@,
            },
    {
        let mut i: usize = 0;
        while i < self.messages.len()
            invariant
                i <= self.messages@.len(),
                self.messages@ == old(self).messages@,
                same_but_messages(*self, *old(self)),
                own_message_from(old(self).messages@, id, 0) == own_message_from(old(self).messages@, id, i as int),
            decreases self.messages@.len() - i,
        {
            if self.messages[i].id == id && self.messages[i].from_me {
                let ghost before = self.messages@;
                self.messages[i].state = state;
                assert(self.messages@ =~= before.update(i as int, Message { state, ..before[i as int] }));
                return Ok(());
            }
            i += 1;
        }
        Err(MessengerError::MessageNotFound)
    }

    /// Mark everything read: no unread messages, and our delivered
    /// messages become read.
    pub fn mark_read(&mut self)
        ensures
            final(self).unread_count == 0,
            final(self).messages@.len() == old(self).messages@.len(),
            forall|k: int| 0 <= k < old(self).messages@.len() ==> final(self).messages@[k] == read_upgrade(
                old(self).messages@[k],
            ),
            final(self).contact_key == old(self).contact_key,
            final(self).contact_name == old(self).contact_name,
            final(self).typing == old(self).typing,
            final(self).typing_since == old(self).typing_since,
            final(self).next_id == old(self).next_id,
    {
        self.unread_count = 0;
        let n = self.messages.len();
        let mut i: usize = 0;
        while i < n
            invariant
                n == old(self).messages@.len(),
                i <= n,
                self.messages@.len() == n,
                self.unread_count == 0,
                self.contact_key == old(self).contact_key,
                self.contact_name == old(self).contact_name,
                self.typing == old(self).typing,
                self.typing_since == old(self).typing_since,
                self.next_id == old(self).next_id,
                forall|k: int| 0 <= k < i ==> self.messages@[k] == read_upgrade(old(self).messages@[k]),
                forall|k: int| i <= k < n ==> self.messages@[k] == old(self).messages@[k],
            decreases n - i,
        {
            if self.messages[i].from_me && self.messages[i].state == DeliveryState::Delivered {
                self.messages[i].state = DeliveryState::Read;
            }
            i += 1;
        }
    }

    /// Show or hide the typing indicator; showing it starts its timer now.
    pub fn set_typing(&mut self, is_typing: bool)
        ensures
            final(self).typing == is_typing,
            final(self).typing_since is Some == is_typing,
            final(self).messages == old(self).messages,
            final(self).unread_count == old(self).unread_count,
            final(self).contact_key == old(self).contact_key,
            final(self).contact_name == old(self).contact_name,
            final(self).next_id == old(self).next_id,
    {
        self.typing = is_typing;
        self.typing_since = if is_typing {
            Some(now_secs())
        } else {
            None
        };
    }

    /// Expire the typing indicator when it is older than the timeout at
    /// `now`.
    pub fn tick_typing_at(&mut self, now: u64)
        requires
            old(self).typing_since matches Some(since) ==> since <= now,
        ensures
            typing_ticked(*old(self), *final(self), now),
            final(self).messages == old(self).messages,
            final(self).unread_count == old(self).unread_count,
            final(self).contact_key == old(self).contact_key,
            final(self).contact_name == old(self).contact_name,
            final(self).next_id == old(self).next_id,
    {
        if let Some(since) = self.typing_since {
            if now - since > TYPING_TIMEOUT_SECS {
                self.typing = false;
                self.typing_since = None;
            }
        }
    }

    /// Expire the typing indicator by the system clock; a clock reading
    /// before the indicator's start leaves it as it is.
    pub fn tick_typing(&mut self)
        ensures
            (final(self).typing == old(self).typing && final(self).typing_since == old(self).typing_since) || (
            !final(self).typing && final(self).typing_since is None),
            exists|now: u64| #[trigger] typing_ticked(*old(self), *final(self), now),
            final(self).messages == old(self).messages,
            final(self).unread_count == old(self).unread_count,
            final(self).contact_key == old(self).contact_key,
            final(self).contact_name == old(self).contact_name,
            final(self).next_id == old(self).next_id,
    {
        let now = now_secs();
        match self.typing_since {
            Some(since) => if since <= now {
                self.tick_typing_at(now);
            } else {
                assert(typing_ticked(*old(self), *self, since));
            },
            None => {
                assert(typing_ticked(*old(self), *self, now));
            },
        }
    }

    /// The text of the last message, or "" when there is none.
    pub fn preview(&self) -> (r: &str)
        ensures
            r@ == (if self.messages@.len() == 0 { ""@ } else { self.messages@.last().text@ }),
    {
        if self.messages.len() == 0 {
            ""
        } else {
            self.messages[self.messages.len() - 1].text.as_str()
        }
    }

    /// The timestamp of the last message, or 0 when there is none.
    pub fn last_timestamp(&self) -> (r: u64)
        ensures
            r == last_timestamp_spec(*self),
    {
        if self.messages.len() == 0 {
            0
        } else {
            self.messages[self.messages.len() - 1].timestamp
        }
    }

    pub fn message_count(&self) -> (r: usize)
        ensures
            r == self.messages@.len(),
    {
        self.messages.len()
    }
}

pub open spec fn last_timestamp_spec(c: Conversation) -> u64 {
    if c.messages@.len() == 0 {
        0
    } else {
        c.messages@.last().timestamp
    }
}

/// The newest message decides: after a message `m` is appended (as `send`
/// and `receive` do, the oldest dropped past the cap), the conversation's
/// last timestamp is `m`'s, whatever it held before.
pub proof fn law_last_timestamp_is_newest(c: Conversation, c2: Conversation, m: Message)
    requires
        c2.messages@ == kept_before_push(c.messages@).push(m),
    ensures
        last_timestamp_spec(c2) == m.timestamp,
{
}

/// When a conversation's messages are in time order, its last timestamp is
/// the newest of them: no message is later.
pub proof fn law_last_timestamp_in_order(c: Conversation)
    requires
        c.messages@.len() > 0,
        forall|i: int, j: int| 0 <= i < j < c.messages@.len() ==> c.messages@[i].timestamp <= c.messages@[j].timestamp,
    ensures
        forall|i: int| 0 <= i < c.messages@.len() ==> #[trigger] c.messages@[i].timestamp <= last_timestamp_spec(c),
{
    assert forall|i: int| 0 <= i < c.messages@.len() implies #[trigger] c.messages@[i].timestamp <= last_timestamp_spec(c) by {
        if i < c.messages@.len() - 1 {
            assert(c.messages@[i].timestamp <= c.messages@[c.messages@.len() - 1].timestamp);
        }
    }
}

/// `a` is listed before `b`: its last message is newer.
pub open spec fn more_recent(a: Conversation, b: Conversation) -> bool {
    last_timestamp_spec(a) > last_timestamp_spec(b)
}

/// The conversation with a contact, at or after position `i`.
pub open spec fn conv_index_from(s: Seq<Conversation>, key: IdentityKey, i: int) -> Option<int>
    decreases s.len() - i,
{
    if i < 0 || i >= s.len() {
        None
    } else if s[i].contact_key == key {
        Some(i)
    } else {
        conv_index_from(s, key, i + 1)
    }
}

/// Total of the unread counts.
pub open spec fn unread_sum(s: Seq<Conversation>) -> int
    decreases s.len(),
{
    if s.len() == 0 {
        0
    } else {
        unread_sum(s.drop_last()) + s.last().unread_count
    }
}

pub open spec fn distinct_contacts(s: Seq<Conversation>) -> bool {
    forall|i: int, j: int| 0 <= i < j < s.len() ==> s[i].contact_key != s[j].contact_key
}

proof fn lemma_conv_index_found(s: Seq<Conversation>, key: IdentityKey, i: int)
    requires
        0 <= i,
    ensures
        conv_index_from(s, key, i) matches Some(j) ==> i <= j < s.len() && s[j].contact_key == key,
        conv_index_from(s, key, i) is None ==> forall|k: int| i <= k < s.len() ==> s[k].contact_key != key,
    decreases s.len() - i,
{
    if 0 <= i < s.len() && s[i].contact_key != key {
        lemma_conv_index_found(s, key, i + 1);
    }
}

fn keys_equal(a: &IdentityKey, b: &IdentityKey) -> (r: bool)
    ensures
        r == (*a == *b),
{
    let mut i: usize = 0;
    while i < 32
        invariant
            i <= 32,
            forall|k: int| 0 <= k < i ==> a.0@[k] == b.0@[k],
        decreases 32 - i,
    {
        if a.0[i] != b.0[i] {
            return false;
        }
        i += 1;
    }
    assert(a.0 =~= b.0);
    true
}

/// All conversations on the device, one per contact.
pub struct ConversationList {
    convs: Vec<Conversation>,
}

impl ConversationList {
    pub closed spec fn conversations(&self) -> Seq<Conversation> {
        self.convs@
    }

    pub open spec fn wf(&self) -> bool {
        distinct_contacts(self.conversations())
    }

    pub fn new() -> (l: Self)
        ensures
            l.wf(),
            l.conversations().len() == 0,
    {
        ConversationList { convs: Vec::new() }
    }

    fn index_of(&self, key: &IdentityKey) -> (r: Option<usize>)
        ensures
            match r {
                Some(i) => conv_index_from(self.conversations(), *key, 0) == Some(i as int),
                None => conv_index_from(self.conversations(), *key, 0) is None,
            },
    {
        let mut i: usize = 0;
        while i < self.convs.len()
            invariant
                i <= self.convs@.len(),
                conv_index_from(self.convs@, *key, 0) == conv_index_from(self.convs@, *key, i as int),
            decreases self.convs@.len() - i,
        {
            if keys_equal(&self.convs[i].contact_key, key) {
                return Some(i);
            }
            i += 1;
        }
        None
    }

    /// The conversation with a contact, created under `name` when there is
    /// none yet.
    pub fn get_or_create(&mut self, key: IdentityKey, name: &str) -> (c: &mut Conversation)
        requires
            old(self).wf(),
        ensures
            match conv_index_from(old(self).conversations(), key, 0) {
                Some(i) => *c == old(self).conversations()[i] && final(self).conversations()
                    == old(self).conversations().update(i, *final(c)),
                None => fresh_conversation(*c, key, name@) && c.wf() && final(self).conversations()
                    == old(self).conversations().push(*final(c)),
            },
            final(c).contact_key == key ==> final(self).wf(),
    {
        proof {
            lemma_conv_index_found(self.convs@, key, 0);
        }
        let idx = match self.index_of(&key) {
            Some(i) => i,
            None => {
                let ghost before = self.convs@;
                self.convs.push(Conversation::new(key, owned_name(name)));
                self.convs.len() - 1
            },
        };
        let ghost mid = self.convs@;
        proof {
            assert forall|a: int, b: int| 0 <= a < b < mid.len() && b != idx && a != idx implies mid[a].contact_key
                != mid[b].contact_key by {
                assert(mid[a] == old(self).convs@[a] && mid[b] == old(self).convs@[b]);
            }
        }
        &mut self.convs[idx]
    }

    /// The conversation with a contact.
    pub fn get(&self, key: &IdentityKey) -> (r: Option<&Conversation>)
        ensures
            match conv_index_from(self.conversations(), *key, 0) {
                Some(i) => r is Some && *r->0 == self.conversations()[i],
                None => r is None,
            },
    {
        proof {
            lemma_conv_index_found(self.convs@, *key, 0);
        }
        match self.index_of(key) {
            Some(i) => Some(&self.convs[i]),
            None => None,
        }
    }

    /// The conversation with a contact, to change.
    pub fn get_mut(&mut self, key: &IdentityKey) -> (r: Option<&mut Conversation>)
        ensures
            match conv_index_from(old(self).conversations(), *key, 0) {
                Some(i) => r is Some && *r->0 == old(self).conversations()[i],
                None => r is None && final(self).conversations() == old(self).conversations(),
            },
    {
        proof {
            lemma_conv_index_found(self.convs@, *key, 0);
        }
        match self.index_of(key) {
            Some(i) => Some(&mut self.convs[i]),
            None => None,
        }
    }

    /// The conversations, most recent last message first; ties keep the
    /// order in which the conversations were created.
    pub fn sorted(&self) -> (v: Vec<&Conversation>)
        ensures
            v@.len() == self.conversations().len(),
            exists|idx: Seq<int>| {
                &&& idx.len() == self.conversations().len()
                &&& idx.no_duplicates()
                &&& forall|k: int| 0 <= k < idx.len() ==> 0 <= #[trigger] idx[k] < self.conversations().len()
                &&& forall|k: int| 0 <= k < idx.len() ==> *v@[k] == self.conversations()[#[trigger] idx[k]]
                &&& forall|a: int, b: int| 0 <= a < b < idx.len() ==> !more_recent(*v@[b], *v@[a])
                &&& forall|a: int, b: int|
                    0 <= a < b < idx.len() && !more_recent(*v@[a], *v@[b]) ==> idx[a] < idx[b]
            },
    {
        let mut v: Vec<&Conversation> = Vec::new();
        let ghost mut idx: Seq<int> = Seq::empty();
        let n = self.convs.len();
        let mut i: usize = 0;
        while i < n
            invariant
                n == self.convs@.len(),
                i <= n,
                v@.len() == i,
                idx.len() == i,
                idx.no_duplicates(),
                forall|k: int| 0 <= k < idx.len() ==> 0 <= #[trigger] idx[k] < i,
                forall|k: int| 0 <= k < idx.len() ==> *v@[k] == self.convs@[#[trigger] idx[k]],
                forall|a: int, b: int| 0 <= a < b < idx.len() ==> !more_recent(*v@[b], *v@[a]),
                forall|a: int, b: int| 0 <= a < b < idx.len() && !more_recent(*v@[a], *v@[b]) ==> idx[a] < idx[b],
            decreases n - i,
        {
            let item = &self.convs[i];
            let ts = item.last_timestamp();
            let mut p: usize = 0;
            while p < v.len() && !(ts > v[p].last_timestamp())
                invariant
                    p <= v@.len(),
                    v@.len() == i,
                    i < n,
                    n == self.convs@.len(),
                    *item == self.convs@[i as int],
                    ts == last_timestamp_spec(*item),
                    forall|k: int| 0 <= k < p ==> !more_recent(*item, *v@[k]),
                decreases v@.len() - p,
            {
                p += 1;
            }
            let ghost v0 = v@;
            let ghost idx0 = idx;
            v.insert(p, item);
            proof {
                idx = idx0.insert(p as int, i as int);
                assert forall|k: int| 0 <= k < idx.len() implies 0 <= #[trigger] idx[k] < i + 1 by {
                    if k < p {
                        assert(idx[k] == idx0[k]);
                    } else if k > p {
                        assert(idx[k] == idx0[k - 1]);
                    }
                }
                assert forall|k: int| 0 <= k < idx.len() implies *v@[k] == self.convs@[#[trigger] idx[k]] by {
                    if k < p {
                        assert(idx[k] == idx0[k]);
                        assert(v@[k] == v0[k]);
                    } else if k > p {
                        assert(idx[k] == idx0[k - 1]);
                        assert(v@[k] == v0[k - 1]);
                    }
                }
                assert forall|a: int, b: int| 0 <= a < b < idx.len() implies !more_recent(*v@[b], *v@[a]) by {
                    if a < p && b < p {
                        assert(v@[a] == v0[a] && v@[b] == v0[b]);
                    } else if a < p && b == p {
                        assert(v@[a] == v0[a]);
                    } else if a < p && b > p {
                        assert(v@[a] == v0[a] && v@[b] == v0[b - 1]);
                    } else if a == p {
                        assert(v@[b] == v0[b - 1]);
                        if p < v0.len() {
                            assert(more_recent(*item, *v0[p as int]));
                            if b - 1 > p {
                                assert(!more_recent(*v0[b - 1], *v0[p as int]));
                            }
                        }
                    } else {
                        assert(v@[a] == v0[a - 1] && v@[b] == v0[b - 1]);
                    }
                }
                assert forall|a: int, b: int|
                    0 <= a < b < idx.len() && !more_recent(*v@[a], *v@[b]) implies idx[a] < idx[b] by {
                    if a < p && b < p {
                        assert(idx[a] == idx0[a] && idx[b] == idx0[b]);
                        assert(v@[a] == v0[a] && v@[b] == v0[b]);
                    } else if a < p && b == p {
                        assert(idx[a] == idx0[a]);
                    } else if a < p && b > p {
                        assert(idx[a] == idx0[a] && idx[b] == idx0[b - 1]);
                        assert(v@[a] == v0[a] && v@[b] == v0[b - 1]);
                    } else if a == p {
                        assert(v@[b] == v0[b - 1]);
                        assert(more_recent(*item, *v0[p as int]));
                        assert(!more_recent(*v0[b - 1], *v0[p as int]));
                        assert(false);
                    } else {
                        assert(idx[a] == idx0[a - 1] && idx[b] == idx0[b - 1]);
                        assert(v@[a] == v0[a - 1] && v@[b] == v0[b - 1]);
                    }
                }
                assert forall|a: int, b: int| 0 <= a < idx.len() && 0 <= b < idx.len() && a != b implies idx[a]
                    != idx[b] by {
                    let ia = if a < p {
                        a
                    } else if a > p {
                        a - 1
                    } else {
                        -1
                    };
                    let ib = if b < p {
                        b
                    } else if b > p {
                        b - 1
                    } else {
                        -1
                    };
                    if a != p as int && b != p as int {
                        assert(idx[a] == idx0[ia] && idx[b] == idx0[ib]);
                    } else if a == p as int {
                        assert(idx[b] == idx0[ib]);
                    } else {
                        assert(idx[a] == idx0[ia]);
                    }
                }
            }
            i += 1;
        }
        v
    }

    /// Unread messages over all conversations.
    pub fn total_unread(&self) -> (r: usize)
        requires
            unread_sum(self.conversations()) <= usize::MAX,
        ensures
            r == unread_sum(self.conversations()),
    {
        let mut total: usize = 0;
        let mut i: usize = 0;
        while i < self.convs.len()
            invariant
                i <= self.convs@.len(),
                unread_sum(self.convs@) <= usize::MAX,
                total == unread_sum(self.convs@.take(i as int)),
            decreases self.convs@.len() - i,
        {
            proof {
                assert(self.convs@.take(i + 1).drop_last() =~= self.convs@.take(i as int));
                lemma_unread_sum_prefix(self.convs@, i + 1);
            }
            total = total + self.convs[i].unread_count;
            i += 1;
        }
        assert(self.convs@.take(self.convs@.len() as int) =~= self.convs@);
        total
    }

    pub fn count(&self) -> (r: usize)
        ensures
            r == self.conversations().len(),
    {
        self.convs.len()
    }
}

proof fn lemma_unread_sum_prefix(s: Seq<Conversation>, k: int)
    requires
        0 <= k <= s.len(),
    ensures
        unread_sum(s.take(k)) <= unread_sum(s),
    decreases s.len(),
{
    if k < s.len() {
        assert(s.drop_last().take(k) =~= s.take(k));
        lemma_unread_sum_prefix(s.drop_last(), k);
    } else {
        assert(s.take(k) =~= s);
    }
}

/// The conversations after `get_or_create` for `key` has handed out a
/// conversation that ends as `c`.
pub open spec fn after_get_or_create(v: Seq<Conversation>, key: IdentityKey, c: Conversation) -> Seq<Conversation> {
    match conv_index_from(v, key, 0) {
        Some(i) => v.update(i, c),
        None => v.push(c),
    }
}

/// Asking twice for the conversation with one contact leaves one
/// conversation with it: the first call adds it at most once, the second
/// finds it and adds nothing.
pub proof fn law_get_or_create_twice(v: Seq<Conversation>, key: IdentityKey, c1: Conversation, c2: Conversation)
    requires
        distinct_contacts(v),
        c1.contact_key == key,
        c2.contact_key == key,
    ensures
        after_get_or_create(v, key, c1).len() <= v.len() + 1,
        after_get_or_create(after_get_or_create(v, key, c1), key, c2).len() == after_get_or_create(v, key, c1).len(),
        conv_index_from(after_get_or_create(v, key, c1), key, 0) is Some,
        forall|a: int, b: int|
            0 <= a < b < after_get_or_create(after_get_or_create(v, key, c1), key, c2).len() ==> after_get_or_create(
                after_get_or_create(v, key, c1),
                key,
                c2,
            )[a].contact_key != after_get_or_create(after_get_or_create(v, key, c1), key, c2)[b].contact_key,
{
    lemma_conv_index_found(v, key, 0);
    let w = after_get_or_create(v, key, c1);
    match conv_index_from(v, key, 0) {
        Some(i) => {
            assert(w[i].contact_key == key);
        },
        None => {
            assert(w[v.len() as int].contact_key == key);
        },
    }
    lemma_conv_index_found(w, key, 0);
    assert(conv_index_from(w, key, 0) is Some) by {
        if conv_index_from(w, key, 0) is None {
            match conv_index_from(v, key, 0) {
                Some(i) => assert(w[i].contact_key == key),
                None => assert(w[v.len() as int].contact_key == key),
            }
        }
    }
    assert forall|a: int, b: int| 0 <= a < b < w.len() implies w[a].contact_key != w[b].contact_key by {
        match conv_index_from(v, key, 0) {
            Some(i) => {},
            None => {},
        }
    }
    let j = conv_index_from(w, key, 0)->0;
    let x = w.update(j, c2);
    assert forall|a: int, b: int| 0 <= a < b < x.len() implies x[a].contact_key != x[b].contact_key by {
        if a != j && b != j {
            assert(x[a] == w[a] && x[b] == w[b]);
        } else if a == j {
            assert(x[b] == w[b]);
        } else {
            assert(x[a] == w[a]);
        }
    }
}

} // verus!
