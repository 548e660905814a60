//! The local intent parser used when the assistant service is unreachable.
use vstd::prelude::*;
use vstd::utf8::{decode_utf8, encode_utf8, is_char_boundary};
use crate::text::{chars_of, contains, contains_spec, is_whitespace, is_ws, lowercase_spec, starts_with, starts_with_spec, string_of, to_lowercase, trim, trim_spec};

verus! {

broadcast use vstd::utf8::group_utf8_lib;

#[derive(Debug, Clone, PartialEq)]
pub enum Intent {
    Call { contact: String },
    Message { contact: String, text: String },
    CallStatus,
    MessageStatus,
    Unknown { raw: String },
}

/// An intent as plain values.
pub enum IntentView {
    Call(Seq<char>),
    Message(Seq<char>, Seq<char>),
    CallStatus,
    MessageStatus,
    Unknown(Seq<char>),
}

impl View for Intent {
    type V = IntentView;

    open spec fn view(&self) -> IntentView {
        match self {
            Intent::Call { contact } => IntentView::Call(contact@),
            Intent::Message { contact, text } => IntentView::Message(contact@, text@),
            Intent::CallStatus => IntentView::CallStatus,
            Intent::MessageStatus => IntentView::MessageStatus,
            Intent::Unknown { raw } => IntentView::Unknown(raw@),
        }
    }
}

/// The end of the run of non-whitespace starting at `i`.
pub open spec fn run_end(s: Seq<char>, i: int) -> int
    decreases s.len() - i,
{
    if i < 0 || i >= s.len() || is_ws(s[i]) {
        i
    } else {
        run_end(s, i + 1)
    }
}

pub proof fn lemma_run_end(s: Seq<char>, i: int)
    requires
        0 <= i <= s.len(),
    ensures
        i <= run_end(s, i) <= s.len(),
        forall|k: int| i <= k < run_end(s, i) ==> !is_ws(s[k]),
        run_end(s, i) < s.len() ==> is_ws(s[run_end(s, i)]),
    decreases s.len() - i,
{
    if i < s.len() && !is_ws(s[i]) {
        lemma_run_end(s, i + 1);
    }
}

/// The whitespace-separated words of `s` (what `split_whitespace` yields).
pub open spec fn words(s: Seq<char>) -> Seq<Seq<char>>
    decreases s.len(),
{
    if s.len() == 0 {
        Seq::empty()
    } else if is_ws(s[0]) {
        words(s.drop_first())
    } else {
        proof {
            lemma_run_end(s, 1);
        }
        seq![s.take(run_end(s, 1))] + words(s.skip(run_end(s, 1)))
    }
}

/// Words joined by single spaces.
pub open spec fn join_spaces(w: Seq<Seq<char>>) -> Seq<char>
    decreases w.len(),
{
    if w.len() == 0 {
        Seq::empty()
    } else if w.len() == 1 {
        w[0]
    } else {
        join_spaces(w.drop_last()) + seq![' '] + w.last()
    }
}

/// "call X": the prefix falls on a character boundary of the input.
pub open spec fn heuristic_ok(input: Seq<char>) -> bool {
    starts_with_spec(lowercase_spec(input), "call "@) ==> is_char_boundary(encode_utf8(input), 5)
}

/// What the heuristics make of an utterance.
pub open spec fn heuristic_spec(input: Seq<char>) -> IntentView {
    let lower = lowercase_spec(input);
    if starts_with_spec(lower, "call "@) {
        let b = encode_utf8(input);
        IntentView::Call(trim_spec(decode_utf8(b.subrange(5, b.len() as int))))
    } else if (starts_with_spec(lower, "message "@) || starts_with_spec(lower, "text "@)) && words(input).len()
        >= 2 {
        IntentView::Message(words(input)[1], join_spaces(words(input).skip(2)))
    } else if contains_spec(lower, "status"@) && contains_spec(lower, "call"@) {
        IntentView::CallStatus
    } else if contains_spec(lower, "status"@) && contains_spec(lower, "message"@) {
        IntentView::MessageStatus
    } else {
        IntentView::Unknown(input)
    }
}

proof fn lemma_words_step_ws(s: Seq<char>, i: int)
    requires
        0 <= i < s.len(),
        is_ws(s[i]),
    ensures
        words(s.skip(i)) == words(s.skip(i + 1)),
{
    assert(s.skip(i).drop_first() =~= s.skip(i + 1));
}

proof fn lemma_words_step_word(s: Seq<char>, i: int)
    requires
        0 <= i < s.len(),
        !is_ws(s[i]),
    ensures
        i < run_end(s, i) <= s.len(),
        words(s.skip(i)) == seq![s.subrange(i, run_end(s, i))] + words(s.skip(run_end(s, i))),
{
    let t = s.skip(i);
    lemma_run_end(s, i);
    lemma_run_end(t, 1);
    lemma_run_end_shift(s, i, i + 1);
    assert(run_end(t, 1) == run_end(s, i + 1) - i);
    assert(run_end(s, i) == run_end(s, i + 1));
    assert(t.take(run_end(t, 1)) =~= s.subrange(i, run_end(s, i)));
    assert(t.skip(run_end(t, 1)) =~= s.skip(run_end(s, i)));
}

pub proof fn lemma_run_end_shift(s: Seq<char>, i: int, j: int)
    requires
        0 <= i <= j <= s.len(),
    ensures
        run_end(s.skip(i), j - i) == run_end(s, j) - i,
    decreases s.len() - j,
{
    if j < s.len() && !is_ws(s[j]) {
        lemma_run_end_shift(s, i, j + 1);
    }
}

/// The whitespace-separated words of a text.
fn split_words(s: &[char]) -> (r: Vec<Vec<char>>)
    ensures
        r@.len() == words(s@).len(),
        forall|k: int| 0 <= k < r@.len() ==> r@[k]@ == words(s@)[k],
{
    let mut out: Vec<Vec<char>> = Vec::new();
    let ghost mut done: Seq<Seq<char>> = Seq::empty();
    let mut i: usize = 0;
    assert(s@.skip(0) =~= s@);
    while i < s.len()
        invariant
            i <= s@.len(),
            out@.len() == done.len(),
            forall|k: int| 0 <= k < out@.len() ==> out@[k]@ == done[k],
            done + words(s@.skip(i as int)) == words(s@),
        decreases s@.len() - i,
    {
        if is_whitespace(s[i]) {
            proof {
                lemma_words_step_ws(s@, i as int);
            }
            i += 1;
        } else {
            proof {
                lemma_words_step_word(s@, i as int);
                lemma_run_end(s@, i as int);
            }
            let start = i;
            let mut w: Vec<char> = Vec::new();
            while i < s.len() && !is_whitespace(s[i])
                invariant
                    start <= i <= s@.len(),
                    w@ == s@.subrange(start as int, i as int),
                    run_end(s@, start as int) == run_end(s@, i as int),
                decreases s@.len() - i,
            {
                w.push(s[i]);
                proof {
                    assert(w@ =~= s@.subrange(start as int, i + 1));
                }
                i += 1;
            }
            proof {
                let w0 = s@.subrange(start as int, i as int);
                assert(done + words(s@.skip(start as int)) == words(s@));
                assert(done.push(w0) + words(s@.skip(i as int)) =~= done + (seq![w0] + words(s@.skip(i as int))));
                done = done.push(w0);
            }
            out.push(w);
        }
    }
    proof {
        assert(s@.skip(i as int) =~= Seq::<char>::empty());
        assert(done + Seq::<Seq<char>>::empty() =~= done);
    }
    out
}

fn join_words(w: &Vec<Vec<char>>, from: usize) -> (r: Vec<char>)
    requires
        from <= w@.len(),
    ensures
        r@ == join_spaces(Seq::new((w@.len() - from) as nat, |k: int| w@[from + k]@)),
{
    let mut r: Vec<char> = Vec::new();
    let mut i = from;
    proof {
        assert(Seq::new(0nat, |k: int| w@[from + k]@) =~= Seq::<Seq<char>>::empty());
    }
    while i < w.len()
        invariant
            from <= i <= w@.len(),
            r@ == join_spaces(Seq::new((i - from) as nat, |k: int| w@[from + k]@)),
        decreases w@.len() - i,
    {
        let ghost prev = Seq::new((i - from) as nat, |k: int| w@[from + k]@);
        let ghost next = Seq::new((i + 1 - from) as nat, |k: int| w@[from + k]@);
        proof {
            assert(next.drop_last() =~= prev);
        }
        if i > from {
            r.push(' ');
        }
        let ghost head = r@;
        let word = &w[i];
        let mut k: usize = 0;
        while k < word.len()
            invariant
                k <= word@.len(),
                r@ == head + word@.take(k as int),
            decreases word@.len() - k,
        {
            r.push(word[k]);
            proof {
                assert(r@ =~= head + word@.take(k + 1));
            }
            k += 1;
        }
        proof {
            assert(word@.take(word@.len() as int) =~= word@);
            if i == from {
                assert(head =~= Seq::<char>::empty());
                assert(r@ =~= next[0]);
            }
        }
        i += 1;
    }
    r
}

impl Intent {
    /// Parse an utterance with fixed rules: "call X", "message X ..." or
    /// "text X ...", a status question, or unknown.
    pub fn from_heuristic(input: &str) -> (r: Self)
        requires
            heuristic_ok(input@),
        ensures
            r@ == heuristic_spec(input@),
    {
        let low = to_lowercase(input);
        let lower = chars_of(low.as_str());
        let l = lower.as_slice();
        if starts_with(l, chars_of("call ").as_slice()) {
            proof {
                reveal_strlit("call ");
                let b = encode_utf8(input@);
                assert(decode_utf8(encode_utf8(input@)) == input@);
            }
            let (_, rest) = input.split_at(5);
            proof {
                let b = encode_utf8(input@);
                assert(encode_utf8(rest@) =~= b.subrange(5, b.len() as int));
                assert(decode_utf8(encode_utf8(rest@)) == rest@);
            }
            let contact = trim(chars_of(rest).as_slice());
            return Intent::Call { contact: string_of(contact.as_slice()) };
        }
        if starts_with(l, chars_of("message ").as_slice()) || starts_with(l, chars_of("text ").as_slice()) {
            let parts = split_words(chars_of(input).as_slice());
            if parts.len() >= 2 {
                let contact = string_of(parts[1].as_slice());
                let text = join_words(&parts, 2);
                proof {
                    assert(Seq::new((parts@.len() - 2) as nat, |k: int| parts@[2 + k]@) =~= words(input@).skip(2));
                }
                return Intent::Message { contact, text: string_of(text.as_slice()) };
            }
        }
        if contains(l, chars_of("status").as_slice()) {
            if contains(l, chars_of("call").as_slice()) {
                return Intent::CallStatus;
            } else if contains(l, chars_of("message").as_slice()) {
                return Intent::MessageStatus;
            }
        }
        Intent::Unknown { raw: input.to_owned() }
    }

    /// Parse with the fixed rules wherever the input allows it: `None` when
    /// the lowered text starts with "call " but byte 5 of the input is not a
    /// character boundary, so that the contact cannot be cut out.
    pub fn try_from_heuristic(input: &str) -> (r: Option<Self>)
        ensures
            match r {
                Some(i) => heuristic_ok(input@) && i@ == heuristic_spec(input@),
                None => !heuristic_ok(input@),
            },
    {
        let low = to_lowercase(input);
        let lower = chars_of(low.as_str());
        if starts_with(lower.as_slice(), chars_of("call ").as_slice()) && !input.is_char_boundary(5) {
            proof {
                reveal_strlit("call ");
            }
            None
        } else {
            proof {
                reveal_strlit("call ");
            }
            Some(Self::from_heuristic(input))
        }
    }

    pub fn label(&self) -> (r: &'static str)
        ensures
            r@ == match *self {
                Intent::Call { .. } => "call"@,
                Intent::Message { .. } => "message"@,
                Intent::CallStatus => "call_status"@,
                Intent::MessageStatus => "message_status"@,
                Intent::Unknown { .. } => "unknown"@,
            },
    {
        match self {
            Intent::Call { .. } => "call",
            Intent::Message { .. } => "message",
            Intent::CallStatus => "call_status",
            Intent::MessageStatus => "message_status",
            Intent::Unknown { .. } => "unknown",
        }
    }
}

/// The parser used when the assistant service is unavailable.
pub struct FallbackIntentParser;

impl FallbackIntentParser {
    pub fn parse(input: &str) -> (r: Intent)
        requires
            heuristic_ok(input@),
        ensures
            r@ == heuristic_spec(input@),
    {
        Intent::from_heuristic(input)
    }
}

} // verus!
