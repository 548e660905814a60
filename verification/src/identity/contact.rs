//! The contact book: the public keys this device trusts, under names the
//! user chose.  There are no phone numbers: a key is the whole address.
use vstd::prelude::*;
use vstd::utf8::{decode_utf8, encode_utf8, valid_utf8};
use vstd::string::StrSliceExecFns;
use crate::clock::now_secs;
use crate::identity::keypair::{decimal, decimal_spec, from_hex_spec, hex_cut_ok, hex_decode_spec, hex_pair, hex_value, IdentityKey};
use crate::primitives::utf8_decode;
use crate::push_notification::hex_spec;
use crate::text::{chars_eq, chars_of, concat_str, string_of};

verus! {

broadcast use vstd::utf8::group_utf8_lib;

/// A trusted contact.
#[derive(Debug, Clone)]
pub struct Contact {
    pub name: String,
    pub key: IdentityKey,
    /// Unix time the contact was added.
    pub added_at: u64,
    pub last_seen: Option<u64>,
    pub trusted: bool,
}

/// A contact as plain values.
pub struct ContactView {
    pub name: Seq<char>,
    pub key: Seq<u8>,
    pub added_at: u64,
    pub last_seen: Option<u64>,
    pub trusted: bool,
}

impl View for Contact {
    type V = ContactView;

    open spec fn view(&self) -> ContactView {
        ContactView {
            name: self.name@,
            key: self.key.0@,
            added_at: self.added_at,
            last_seen: self.last_seen,
            trusted: self.trusted,
        }
    }
}

impl Contact {
    /// A trusted contact added at the given Unix time.
    pub fn new_at(name: &str, key: IdentityKey, now: u64) -> (c: Self)
        ensures
            c@ == (ContactView { name: name@, key: key.0@, added_at: now, last_seen: None, trusted: true }),
            c.key == key,
    {
        Contact { name: name.to_owned(), key, added_at: now, last_seen: None, trusted: true }
    }

    /// A trusted contact added now.
    pub fn new(name: &str, key: IdentityKey) -> (c: Self)
        ensures
            c.name@ == name@,
            c.key == key,
            c.last_seen is None,
            c.trusted,
    {
        Contact::new_at(name, key, now_secs())
    }
}

/// One entry of a book: the hex text it is filed under, and the contact.
pub type EntryView = (Seq<char>, ContactView);

/// Position of the last entry filed under `k`, or -1.
pub open spec fn key_index<K, T>(v: Seq<(K, T)>, k: K) -> int
    decreases v.len(),
{
    if v.len() == 0 {
        -1
    } else if v.last().0 == k {
        v.len() - 1
    } else {
        key_index(v.drop_last(), k)
    }
}

/// Some entry is filed under `k`.
pub open spec fn contains_key<K, T>(v: Seq<(K, T)>, k: K) -> bool {
    exists|i: int| 0 <= i < v.len() && #[trigger] v[i].0 == k
}

/// No two entries are filed under the same text.
pub open spec fn distinct_keys<K, T>(v: Seq<(K, T)>) -> bool {
    forall|i: int, j: int| 0 <= i < j < v.len() ==> v[i].0 != v[j].0
}

pub proof fn lemma_key_index<K, T>(v: Seq<(K, T)>, k: K)
    ensures
        -1 <= key_index(v, k) < v.len(),
        key_index(v, k) >= 0 ==> v[key_index(v, k)].0 == k,
        key_index(v, k) == -1 <==> !contains_key(v, k),
        distinct_keys(v) && key_index(v, k) >= 0 ==> forall|i: int|
            0 <= i < v.len() && v[i].0 == k ==> i == key_index(v, k),
    decreases v.len(),
{
    if v.len() > 0 {
        lemma_key_index(v.drop_last(), k);
        if key_index(v, k) == -1 {
            assert forall|i: int| 0 <= i < v.len() implies #[trigger] v[i].0 != k by {
                if i < v.len() - 1 {
                    assert(v.drop_last()[i] == v[i]);
                }
            }
        } else if v.last().0 != k {
            let i0 = key_index(v, k);
            assert(v.drop_last()[i0] == v[i0]);
        }
    }
}

/// Store `cv` under `k`: in place of the entry filed under `k`, or at the end.
pub open spec fn upsert<K, T>(v: Seq<(K, T)>, k: K, cv: T) -> Seq<(K, T)> {
    let i = key_index(v, k);
    if i >= 0 {
        v.update(i, (k, cv))
    } else {
        v.push((k, cv))
    }
}

pub proof fn lemma_upsert_distinct<K, T>(v: Seq<(K, T)>, k: K, cv: T)
    requires
        distinct_keys(v),
    ensures
        distinct_keys(upsert(v, k, cv)),
{
    lemma_key_index(v, k);
}

/// Position of the first `c` in `s` at or after `i`, or `s.len()`.
pub open spec fn find_char(s: Seq<char>, c: char, i: int) -> int
    decreases s.len() - i,
{
    if i < 0 || i >= s.len() {
        s.len() as int
    } else if s[i] == c {
        i
    } else {
        find_char(s, c, i + 1)
    }
}

pub proof fn lemma_find_char(s: Seq<char>, c: char, i: int)
    requires
        0 <= i <= s.len(),
    ensures
        i <= find_char(s, c, i) <= s.len(),
        find_char(s, c, i) < s.len() ==> s[find_char(s, c, i)] == c,
        forall|k: int| i <= k < find_char(s, c, i) ==> s[k] != c,
    decreases s.len() - i,
{
    if i < s.len() && s[i] != c {
        lemma_find_char(s, c, i + 1);
    }
}

/// A line without the carriage return that ended it.
pub open spec fn strip_cr(l: Seq<char>) -> Seq<char> {
    if l.len() > 0 && l.last() == '\r' {
        l.drop_last()
    } else {
        l
    }
}

/// The lines of a text, as `str::lines` yields them: split at each '\n',
/// a '\r' just before a '\n' dropped, no empty line after a final '\n'.
pub open spec fn text_lines(s: Seq<char>) -> Seq<Seq<char>>
    decreases s.len(),
{
    if s.len() == 0 {
        Seq::empty()
    } else {
        let e = find_char(s, '\n', 0);
        if e >= s.len() {
            seq![s]
        } else {
            proof {
                lemma_find_char(s, '\n', 0);
            }
            seq![strip_cr(s.take(e))] + text_lines(s.skip(e + 1))
        }
    }
}

/// The value of a run of decimal digits.
pub open spec fn digits_value(d: Seq<char>) -> nat
    decreases d.len(),
{
    if d.len() == 0 {
        0
    } else {
        10 * digits_value(d.drop_last()) + ((d.last() as nat) - 48) as nat
    }
}

pub open spec fn all_digits(d: Seq<char>) -> bool {
    forall|i: int| 0 <= i < d.len() ==> '0' <= #[trigger] d[i] <= '9'
}

/// What `str::parse::<u64>` gives: an optional '+', then one or more decimal
/// digits whose value fits in 64 bits.
pub open spec fn parse_u64_spec(s: Seq<char>) -> Option<u64> {
    let d = if s.len() > 0 && s[0] == '+' { s.skip(1) } else { s };
    if d.len() > 0 && all_digits(d) && digits_value(d) <= u64::MAX {
        Some(digits_value(d) as u64)
    } else {
        None
    }
}

/// The entry a line `hex:added_at:name` stands for, if it is one.
pub open spec fn parse_line(l: Seq<char>) -> Option<EntryView> {
    let c1 = find_char(l, ':', 0);
    let c2 = find_char(l, ':', c1 + 1);
    if c1 >= l.len() || c2 >= l.len() {
        None
    } else {
        match from_hex_spec(l.take(c1)) {
            Ok(b) => Some(
                (
                    l.take(c1),
                    ContactView {
                        name: l.skip(c2 + 1),
                        key: b,
                        added_at: match parse_u64_spec(l.subrange(c1 + 1, c2)) {
                            Some(n) => n,
                            None => 0,
                        },
                        last_seen: None,
                        trusted: true,
                    },
                ),
            ),
            Err(_) => None,
        }
    }
}

/// Reading a line never cuts its key text inside a character.
pub open spec fn line_ok(l: Seq<char>) -> bool {
    let c1 = find_char(l, ':', 0);
    let c2 = find_char(l, ':', c1 + 1);
    c1 < l.len() && c2 < l.len() ==> hex_cut_ok(l.take(c1))
}

/// The entries read from some lines, in order; a later line filed under
/// the same text replaces the earlier one.
pub open spec fn load_lines(ls: Seq<Seq<char>>) -> Seq<EntryView>
    decreases ls.len(),
{
    if ls.len() == 0 {
        Seq::empty()
    } else {
        let acc = load_lines(ls.drop_last());
        match parse_line(ls.last()) {
            Some(e) => upsert(acc, e.0, e.1),
            None => acc,
        }
    }
}

/// The book read from some bytes: nothing when they are not UTF-8.
pub open spec fn from_bytes_spec(data: Seq<u8>) -> Seq<EntryView> {
    if valid_utf8(data) {
        load_lines(text_lines(decode_utf8(data)))
    } else {
        Seq::empty()
    }
}

/// The bytes can be read without cutting a key text inside a character.
pub open spec fn from_bytes_ok(data: Seq<u8>) -> bool {
    valid_utf8(data) ==> forall|j: int|
        0 <= j < text_lines(decode_utf8(data)).len() ==> line_ok(#[trigger] text_lines(decode_utf8(data))[j])
}

/// The line an entry is written as.
pub open spec fn entry_line(e: EntryView) -> Seq<char> {
    hex_spec(e.1.key) + ":"@ + decimal_spec(e.1.added_at as nat) + ":"@ + e.1.name
}

/// Lines joined by '\n'.
pub open spec fn join_lines(ls: Seq<Seq<char>>) -> Seq<char>
    decreases ls.len(),
{
    if ls.len() == 0 {
        Seq::empty()
    } else if ls.len() == 1 {
        ls[0]
    } else {
        join_lines(ls.drop_last()) + seq!['\n'] + ls.last()
    }
}

/// The text a book is written as: one line per entry.
pub open spec fn book_text(v: Seq<EntryView>) -> Seq<char> {
    join_lines(Seq::new(v.len(), |i: int| entry_line(v[i])))
}

/// Lexicographic order of texts by code point (the order of `String`).
pub open spec fn text_le(a: Seq<char>, b: Seq<char>) -> bool
    decreases a.len(),
{
    if a.len() == 0 {
        true
    } else if b.len() == 0 {
        false
    } else if a[0] != b[0] {
        a[0] < b[0]
    } else {
        text_le(a.drop_first(), b.drop_first())
    }
}

pub proof fn lemma_text_le_total(a: Seq<char>, b: Seq<char>)
    ensures
        text_le(a, b) || text_le(b, a),
    decreases a.len(),
{
    if a.len() > 0 && b.len() > 0 && a[0] == b[0] {
        lemma_text_le_total(a.drop_first(), b.drop_first());
    }
}

pub proof fn lemma_text_le_trans(a: Seq<char>, b: Seq<char>, c: Seq<char>)
    requires
        text_le(a, b),
        text_le(b, c),
    ensures
        text_le(a, c),
    decreases a.len(),
{
    if a.len() > 0 && b.len() > 0 && c.len() > 0 && a[0] == b[0] && b[0] == c[0] {
        lemma_text_le_trans(a.drop_first(), b.drop_first(), c.drop_first());
    }
}

/// Whether `a` sorts at or before `b`.
fn text_le_exec(a: &[char], b: &[char]) -> (r: bool)
    ensures
        r == text_le(a@, b@),
{
    let mut i: usize = 0;
    assert(a@.skip(0) =~= a@ && b@.skip(0) =~= b@);
    while i < a.len() && i < b.len() && a[i] == b[i]
        invariant
            i <= a@.len(),
            i <= b@.len(),
            a@.take(i as int) == b@.take(i as int),
            text_le(a@, b@) == text_le(a@.skip(i as int), b@.skip(i as int)),
        decreases a@.len() - i,
    {
        proof {
            let sa = a@.skip(i as int);
            let sb = b@.skip(i as int);
            assert(sa.drop_first() =~= a@.skip(i + 1));
            assert(sb.drop_first() =~= b@.skip(i + 1));
            assert(a@.take(i + 1) =~= a@.take(i as int).push(a@[i as int]));
            assert(b@.take(i + 1) =~= b@.take(i as int).push(b@[i as int]));
        }
        i += 1;
    }
    if i == a.len() {
        true
    } else if i == b.len() {
        false
    } else {
        a[i] < b[i]
    }
}

/// `idx` lists each position below `n` once.
pub open spec fn is_permutation(idx: Seq<int>, n: int) -> bool {
    &&& idx.len() == n
    &&& idx.no_duplicates()
    &&& forall|k: int| 0 <= k < idx.len() ==> 0 <= #[trigger] idx[k] < n
}

/// The positions of `names` in name order.
fn order_by_name(names: &Vec<Vec<char>>) -> (out: Vec<usize>)
    ensures
        is_permutation(Seq::new(out@.len(), |k: int| out@[k] as int), names@.len() as int),
        forall|a: int, b: int|
            0 <= a < b < out@.len() ==> text_le(names@[out@[a] as int]@, names@[out@[b] as int]@),
{
    let n = names.len();
    let mut out: Vec<usize> = Vec::new();
    let mut i: usize = 0;
    while i < n
        invariant
            n == names@.len(),
            i <= n,
            out@.len() == i,
            forall|k: int| 0 <= k < out@.len() ==> #[trigger] out@[k] < i,
            forall|a: int, b: int| 0 <= a < out@.len() && 0 <= b < out@.len() && a != b ==> out@[a] != out@[b],
            forall|a: int, b: int|
                0 <= a < b < out@.len() ==> text_le(names@[out@[a] as int]@, names@[out@[b] as int]@),
        decreases n - i,
    {
        let mut p: usize = 0;
        while p < out.len() && text_le_exec(names[out[p]].as_slice(), names[i].as_slice())
            invariant
                p <= out@.len(),
                out@.len() == i,
                i < n,
                n == names@.len(),
                forall|k: int| 0 <= k < out@.len() ==> #[trigger] out@[k] < i,
                forall|k: int| 0 <= k < p ==> text_le(names@[out@[k] as int]@, names@[i as int]@),
            decreases out@.len() - p,
        {
            p += 1;
        }
        let ghost o0 = out@;
        proof {
            if p < out@.len() {
                lemma_text_le_total(names@[out@[p as int] as int]@, names@[i as int]@);
            }
        }
        out.insert(p, i);
        proof {
            assert forall|k: int| 0 <= k < out@.len() implies #[trigger] out@[k] < i + 1 by {
                if k < p {
                    assert(out@[k] == o0[k]);
                } else if k > p {
                    assert(out@[k] == o0[k - 1]);
                }
            }
            assert forall|a: int, b: int| 0 <= a < out@.len() && 0 <= b < out@.len() && a != b implies out@[a]
                != out@[b] by {
                let ia = if a < p { a } else if a > p { a - 1 } else { -1 };
                let ib = if b < p { b } else if b > p { b - 1 } else { -1 };
                if a != p as int && b != p as int {
                    assert(out@[a] == o0[ia] && out@[b] == o0[ib]);
                } else if a == p as int {
                    assert(out@[b] == o0[ib]);
                    assert(o0[ib] < i);
                } else {
                    assert(out@[a] == o0[ia]);
                    assert(o0[ia] < i);
                }
            }
            assert forall|a: int, b: int| 0 <= a < b < out@.len() implies text_le(
                names@[out@[a] as int]@,
                names@[out@[b] as int]@,
            ) by {
                if b < p {
                    assert(out@[a] == o0[a] && out@[b] == o0[b]);
                } else if b == p {
                    assert(out@[a] == o0[a]);
                } else if a < p {
                    assert(out@[a] == o0[a] && out@[b] == o0[b - 1]);
                    lemma_text_le_trans(
                        names@[o0[a] as int]@,
                        names@[i as int]@,
                        names@[o0[p as int] as int]@,
                    );
                    if b - 1 > p {
                        lemma_text_le_trans(
                            names@[o0[a] as int]@,
                            names@[o0[p as int] as int]@,
                            names@[o0[b - 1] as int]@,
                        );
                    }
                } else if a == p {
                    assert(out@[b] == o0[b - 1]);
                    if b - 1 > p {
                        lemma_text_le_trans(
                            names@[i as int]@,
                            names@[o0[p as int] as int]@,
                            names@[o0[b - 1] as int]@,
                        );
                    }
                } else {
                    assert(out@[a] == o0[a - 1] && out@[b] == o0[b - 1]);
                }
            }
        }
        i += 1;
    }
    proof {
        let s = Seq::new(out@.len(), |k: int| out@[k] as int);
        assert forall|a: int, b: int| 0 <= a < s.len() && 0 <= b < s.len() && a != b implies s[a] != s[b] by {
            assert(out@[a] != out@[b]);
        }
    }
    out
}

/// The value of a decimal text, `None` where `str::parse::<u64>` fails.
fn parse_u64(s: &[char]) -> (r: Option<u64>)
    ensures
        r == parse_u64_spec(s@),
{
    let start: usize = if s.len() > 0 && s[0] == '+' {
        1
    } else {
        0
    };
    let ghost d = if s@.len() > 0 && s@[0] == '+' {
        s@.skip(1)
    } else {
        s@
    };
    assert(d =~= s@.skip(start as int));
    assert(parse_u64_spec(s@) == (if d.len() > 0 && all_digits(d) && digits_value(d) <= u64::MAX {
        Some(digits_value(d) as u64)
    } else {
        None
    }));
    if start >= s.len() {
        return None;
    }
    let mut acc: u64 = 0;
    let mut i: usize = start;
    proof {
        assert(d.take(0) =~= Seq::<char>::empty());
    }
    while i < s.len()
        invariant
            start <= i <= s@.len(),
            d =~= s@.skip(start as int),
            parse_u64_spec(s@) == (if d.len() > 0 && all_digits(d) && digits_value(d) <= u64::MAX {
                Some(digits_value(d) as u64)
            } else {
                None
            }),
            all_digits(d.take(i - start)),
            acc as nat == digits_value(d.take(i - start)),
        decreases s@.len() - i,
    {
        let c = s[i];
        let ghost t1 = d.take(i + 1 - start);
        proof {
            assert(t1.drop_last() =~= d.take(i - start));
            assert(d[i - start] == c);
            assert(t1.last() == c);
        }
        if !('0' <= c && c <= '9') {
            proof {
                assert(!all_digits(d)) by {
                    assert(d[i - start] == c);
                }
            }
            return None;
        }
        let digit = (c as u32 - 48) as u64;
        proof {
            assert(digit == (c as nat) - 48);
            assert(digits_value(t1) == 10 * digits_value(d.take(i - start)) + digit);
            assert(all_digits(t1)) by {
                assert forall|k: int| 0 <= k < t1.len() implies '0' <= #[trigger] t1[k] <= '9' by {
                    if k < t1.len() - 1 {
                        assert(t1[k] == d.take(i - start)[k]);
                    }
                }
            }
        }
        let m = acc.checked_mul(10);
        if m.is_none() {
            proof {
                lemma_digits_prefix_le(d, i + 1 - start);
                assert(acc * 10 > u64::MAX);
                assert(digits_value(t1) > u64::MAX);
                assert(!all_digits(d) || digits_value(d) > u64::MAX);
            }
            return None;
        }
        let t = m.unwrap().checked_add(digit);
        if t.is_none() {
            proof {
                lemma_digits_prefix_le(d, i + 1 - start);
            }
            return None;
        }
        acc = t.unwrap();
        i += 1;
    }
    proof {
        assert(d.take(i - start) =~= d);
    }
    Some(acc)
}

/// A longer digit prefix has at least the value of a shorter one.
proof fn lemma_digits_prefix_le(d: Seq<char>, j: int)
    requires
        0 <= j <= d.len(),
    ensures
        all_digits(d) ==> digits_value(d.take(j)) <= digits_value(d),
    decreases d.len() - j,
{
    if j < d.len() {
        lemma_digits_prefix_le(d, j + 1);
        assert(d.take(j + 1).drop_last() =~= d.take(j));
    } else {
        assert(d.take(j) =~= d);
    }
}

/// The lines of a text, as `str::lines` yields them.
fn split_lines(s: &[char]) -> (r: Vec<Vec<char>>)
    ensures
        r@.len() == text_lines(s@).len(),
        forall|k: int| 0 <= k < r@.len() ==> #[trigger] r@[k]@ == text_lines(s@)[k],
{
    let mut out: Vec<Vec<char>> = Vec::new();
    let ghost mut done: Seq<Seq<char>> = Seq::empty();
    let mut i: usize = 0;
    assert(s@.skip(0) =~= s@);
    while i < s.len()
        invariant
            i <= s@.len(),
            out@.len() == done.len(),
            forall|k: int| 0 <= k < out@.len() ==> #[trigger] out@[k]@ == done[k],
            done + text_lines(s@.skip(i as int)) == text_lines(s@),
        decreases s@.len() - i,
    {
        let start = i;
        let ghost rest = s@.skip(start as int);
        let mut line: Vec<char> = Vec::new();
        while i < s.len() && s[i] != '\n'
            invariant
                start <= i <= s@.len(),
                line@ == s@.subrange(start as int, i as int),
                rest == s@.skip(start as int),
                find_char(rest, '\n', 0) == find_char(rest, '\n', i - start),
            decreases s@.len() - i,
        {
            line.push(s[i]);
            proof {
                assert(line@ =~= s@.subrange(start as int, i + 1));
                assert(rest[i - start] == s@[i as int]);
            }
            i += 1;
        }
        proof {
            lemma_find_char(rest, '\n', 0);
            assert(rest.len() > 0);
            let e = find_char(rest, '\n', 0);
            assert(e == i - start) by {
                if i < s@.len() {
                    assert(rest[i - start] == s@[i as int]);
                }
            }
            assert(rest.take(e) =~= line@);
        }
        if i < s.len() {
            let n = line.len();
            if n > 0 && line[n - 1] == '\r' {
                line.pop();
            }
            proof {
                assert(rest.skip(i - start + 1) =~= s@.skip(i + 1));
                let w = line@;
                assert(done.push(w) + text_lines(s@.skip(i + 1)) =~= done + (seq![w] + text_lines(
                    s@.skip(i + 1),
                )));
                done = done.push(w);
            }
            out.push(line);
            i += 1;
        } else {
            proof {
                assert(line@ =~= rest);
                assert(s@.skip(i as int) =~= Seq::<char>::empty());
                assert(done.push(line@) + text_lines(s@.skip(i as int)) =~= done + seq![rest]);
                done = done.push(line@);
            }
            out.push(line);
        }
    }
    proof {
        assert(s@.skip(i as int) =~= Seq::<char>::empty());
        assert(done + Seq::<Seq<char>>::empty() =~= done);
    }
    out
}

/// The first position of `c` in `s` at or after `from`, or the length.
fn find_char_exec(s: &[char], c: char, from: usize) -> (r: usize)
    requires
        from <= s@.len(),
    ensures
        r == find_char(s@, c, from as int),
{
    let mut i = from;
    while i < s.len() && s[i] != c
        invariant
            from <= i <= s@.len(),
            find_char(s@, c, from as int) == find_char(s@, c, i as int),
        decreases s@.len() - i,
    {
        i += 1;
    }
    i
}

fn slice_chars(s: &[char], from: usize, to: usize) -> (r: Vec<char>)
    requires
        from <= to <= s@.len(),
    ensures
        r@ == s@.subrange(from as int, to as int),
{
    let mut r: Vec<char> = Vec::new();
    let mut i = from;
    while i < to
        invariant
            from <= i <= to <= s@.len(),
            r@ == s@.subrange(from as int, i as int),
        decreases to - i,
    {
        r.push(s[i]);
        proof {
            assert(r@ =~= s@.subrange(from as int, i + 1));
        }
        i += 1;
    }
    r
}

/// A name that survives a line of the written book: no line break, and no
/// carriage return at its end unless its line is the last.
pub open spec fn name_fits(name: Seq<char>, last: bool) -> bool {
    &&& forall|k: int| 0 <= k < name.len() ==> #[trigger] name[k] != '\n'
    &&& !last ==> !(name.len() > 0 && name.last() == '\r')
}

/// The entry as it reads back: trusted, never seen.
pub open spec fn as_loaded(e: EntryView) -> EntryView {
    (e.0, ContactView { name: e.1.name, key: e.1.key, added_at: e.1.added_at, last_seen: None, trusted: true })
}

/// Text made of ASCII characters, as bytes.
spec fn ascii_bytes(cs: Seq<char>) -> Seq<u8> {
    Seq::new(cs.len(), |i: int| cs[i] as u8)
}

proof fn lemma_hex_spec_len(b: Seq<u8>)
    ensures
        hex_spec(b).len() == 2 * b.len(),
        forall|k: int|
            0 <= k < hex_spec(b).len() ==> ('0' <= #[trigger] hex_spec(b)[k] <= '9' || 'a' <= hex_spec(b)[k]
                <= 'f'),
    decreases b.len(),
{
    if b.len() > 0 {
        lemma_hex_spec_len(b.drop_last());
        let h = hex_spec(b);
        let h0 = hex_spec(b.drop_last());
        assert forall|k: int| 0 <= k < h.len() implies ('0' <= #[trigger] h[k] <= '9' || 'a' <= h[k] <= 'f') by {
            if k < h0.len() {
                assert(h[k] == h0[k]);
            }
        }
    }
}

proof fn lemma_hex_spec_front(b: Seq<u8>)
    requires
        b.len() > 0,
    ensures
        hex_spec(b) == seq![
            crate::push_notification::nibble_char(b[0] / 16),
            crate::push_notification::nibble_char(b[0] % 16),
        ] + hex_spec(b.drop_first()),
    decreases b.len(),
{
    if b.len() == 1 {
        assert(b.drop_last() =~= Seq::<u8>::empty());
        assert(b.drop_first() =~= Seq::<u8>::empty());
    } else {
        lemma_hex_spec_front(b.drop_last());
        assert(b.drop_last().drop_first() =~= b.drop_first().drop_last());
    }
}

proof fn lemma_hex_decode_hex(b: Seq<u8>)
    ensures
        hex_decode_spec(ascii_bytes(hex_spec(b))) == Ok::<Seq<u8>, int>(b),
    decreases b.len(),
{
    lemma_hex_spec_len(b);
    let t = ascii_bytes(hex_spec(b));
    if b.len() == 0 {
        assert(b =~= Seq::<u8>::empty());
        assert(t.len() == 0);
    } else {
        lemma_hex_spec_front(b);
        lemma_hex_decode_hex(b.drop_first());
        lemma_hex_spec_len(b.drop_first());
        let h = hex_spec(b);
        let hi = b[0] / 16;
        let lo = b[0] % 16;
        assert(t[0] == h[0] as u8);
        assert(t[1] == h[1] as u8);
        assert(h[0] == crate::push_notification::nibble_char(hi));
        assert(h[1] == crate::push_notification::nibble_char(lo));
        assert(hex_value(t[0]) == Some(hi));
        assert(hex_value(t[1]) == Some(lo));
        assert(t.skip(2) =~= ascii_bytes(hex_spec(b.drop_first())));
        assert(16 * hi + lo == b[0]);
        assert(hex_pair(t[0], t[1]) == Some(b[0]));
        assert(hex_decode_spec(t.skip(2)) == Ok::<Seq<u8>, int>(b.drop_first()));
        assert(seq![b[0]] + b.drop_first() =~= b);
    }
}

proof fn lemma_from_hex_of_hex(b: Seq<u8>)
    requires
        b.len() == 32,
    ensures
        from_hex_spec(hex_spec(b)) == Ok::<Seq<u8>, Seq<char>>(b),
{
    lemma_hex_spec_len(b);
    let h = hex_spec(b);
    assert(vstd::utf8::is_ascii_chars(h));
    assert(encode_utf8(h) =~= ascii_bytes(h));
    lemma_hex_decode_hex(b);
}

proof fn lemma_decimal_digits(n: nat)
    ensures
        decimal_spec(n).len() > 0,
        all_digits(decimal_spec(n)),
        digits_value(decimal_spec(n)) == n,
    decreases n,
{
    if n >= 10 {
        lemma_decimal_digits(n / 10);
        let d = decimal_spec(n);
        let d0 = decimal_spec(n / 10);
        assert(d.drop_last() =~= d0);
        assert(d.last() == (48 + n % 10) as char);
        assert((d.last() as nat) - 48 == n % 10);
        assert(n == 10 * (n / 10) + n % 10);
        assert(digits_value(d) == 10 * digits_value(d0) + n % 10);
        assert forall|k: int| 0 <= k < d.len() implies '0' <= #[trigger] d[k] <= '9' by {
            if k < d0.len() {
                assert(d[k] == d0[k]);
            }
        }
    } else {
        let d = decimal_spec(n);
        assert(d.drop_last() =~= Seq::<char>::empty());
        assert(d.last() == (48 + n) as char);
        assert((d.last() as nat) - 48 == n);
        assert(digits_value(d) == 10 * digits_value(d.drop_last()) + n);
    }
}

proof fn lemma_parse_decimal(n: u64)
    ensures
        parse_u64_spec(decimal_spec(n as nat)) == Some(n),
{
    lemma_decimal_digits(n as nat);
}

/// Where the first `c` lies in `a + [c] + b` when `a` holds none.
proof fn lemma_find_after(a: Seq<char>, c: char, b: Seq<char>, from: int)
    requires
        0 <= from <= a.len(),
        forall|k: int| from <= k < a.len() ==> a[k] != c,
    ensures
        find_char(a + seq![c] + b, c, from) == a.len(),
{
    let s = a + seq![c] + b;
    lemma_find_char(s, c, from);
    let f = find_char(s, c, from);
    if f < a.len() {
        assert(s[f] == a[f]);
    }
    if f > a.len() {
        assert(s[a.len() as int] == c);
    }
}

proof fn lemma_find_none(s: Seq<char>, c: char, from: int)
    requires
        0 <= from <= s.len(),
        forall|k: int| from <= k < s.len() ==> s[k] != c,
    ensures
        find_char(s, c, from) == s.len(),
{
    lemma_find_char(s, c, from);
}

proof fn lemma_parse_entry_line(e: EntryView)
    requires
        e.1.key.len() == 32,
    ensures
        parse_line(entry_line(e)) == Some((hex_spec(e.1.key), as_loaded(e).1)),
        line_ok(entry_line(e)),
{
    let h = hex_spec(e.1.key);
    let d = decimal_spec(e.1.added_at as nat);
    let l = entry_line(e);
    lemma_hex_spec_len(e.1.key);
    lemma_decimal_digits(e.1.added_at as nat);
    lemma_parse_decimal(e.1.added_at);
    lemma_from_hex_of_hex(e.1.key);
    reveal_strlit(":");
    let rest = d + seq![':'] + e.1.name;
    assert(l =~= h + seq![':'] + rest);
    lemma_find_after(h, ':', rest, 0);
    let c1 = h.len() as int;
    assert(l.take(c1) =~= h);
    let front = h + seq![':'] + d;
    assert(l =~= front + seq![':'] + e.1.name);
    assert forall|k: int| c1 + 1 <= k < front.len() implies front[k] != ':' by {
        assert(front[k] == d[k - c1 - 1]);
    }
    lemma_find_after(front, ':', e.1.name, c1 + 1);
    let c2 = front.len() as int;
    assert(l.subrange(c1 + 1, c2) =~= d);
    assert(l.skip(c2 + 1) =~= e.1.name);
    assert(vstd::utf8::is_ascii_chars(h));
    assert(encode_utf8(h).len() % 2 == 0);
}

proof fn lemma_join_front(ls: Seq<Seq<char>>)
    requires
        ls.len() >= 2,
    ensures
        join_lines(ls) == ls[0] + seq!['\n'] + join_lines(ls.drop_first()),
    decreases ls.len(),
{
    if ls.len() == 2 {
        assert(ls.drop_last() =~= seq![ls[0]]);
        assert(ls.drop_first() =~= seq![ls[1]]);
        assert(join_lines(ls.drop_last()) == ls[0]);
        assert(join_lines(ls.drop_first()) == ls[1]);
        assert(join_lines(ls) =~= ls[0] + seq!['\n'] + join_lines(ls.drop_first()));
    } else {
        lemma_join_front(ls.drop_last());
        assert(ls.drop_last().drop_first() =~= ls.drop_first().drop_last());
        assert(ls.drop_first().last() == ls.last());
        assert(ls.drop_last()[0] == ls[0]);
        assert(join_lines(ls.drop_first()) == join_lines(ls.drop_first().drop_last()) + seq!['\n']
            + ls.last());
        assert(join_lines(ls) =~= ls[0] + seq!['\n'] + join_lines(ls.drop_first()));
    }
}

/// Lines with no line break, none empty, and none but the last ending in a
/// carriage return, read back from their join.
proof fn lemma_lines_of_join(ls: Seq<Seq<char>>)
    requires
        forall|i: int| 0 <= i < ls.len() ==> (#[trigger] ls[i]).len() > 0,
        forall|i: int, k: int| 0 <= i < ls.len() && 0 <= k < ls[i].len() ==> #[trigger] ls[i][k] != '\n',
        forall|i: int| 0 <= i < ls.len() - 1 ==> (#[trigger] ls[i]).last() != '\r',
    ensures
        text_lines(join_lines(ls)) == ls,
    decreases ls.len(),
{
    if ls.len() == 0 {
    } else if ls.len() == 1 {
        let s = ls[0];
        lemma_find_none(s, '\n', 0);
        assert(seq![s] =~= ls);
    } else {
        lemma_join_front(ls);
        let rest = ls.drop_first();
        assert forall|i: int| 0 <= i < rest.len() implies (#[trigger] rest[i]).len() > 0 by {
            assert(rest[i] == ls[i + 1]);
        }
        assert forall|i: int, k: int| 0 <= i < rest.len() && 0 <= k < rest[i].len() implies #[trigger] rest[i][k]
            != '\n' by {
            assert(rest[i] == ls[i + 1]);
            assert(ls[i + 1][k] != '\n');
        }
        assert forall|i: int| 0 <= i < rest.len() - 1 implies (#[trigger] rest[i]).last() != '\r' by {
            assert(rest[i] == ls[i + 1]);
        }
        lemma_lines_of_join(rest);
        let s = join_lines(ls);
        let a = ls[0];
        assert forall|k: int| 0 <= k < a.len() implies a[k] != '\n' by {
            assert(ls[0][k] != '\n');
        }
        lemma_find_after(a, '\n', join_lines(rest), 0);
        assert(s.take(a.len() as int) =~= a);
        assert(s.skip(a.len() as int + 1) =~= join_lines(rest));
        assert(strip_cr(a) == a);
        assert(seq![a] + rest =~= ls);
    }
}

proof fn lemma_load_entries(v: Seq<EntryView>, m: int)
    requires
        0 <= m <= v.len(),
        distinct_keys(v),
        forall|i: int| 0 <= i < v.len() ==> (#[trigger] v[i]).0 == hex_spec(v[i].1.key) && v[i].1.key.len() == 32,
    ensures
        load_lines(Seq::new(v.len(), |i: int| entry_line(v[i])).take(m)) == Seq::new(
            m as nat,
            |i: int| as_loaded(v[i]),
        ),
    decreases m,
{
    let ls = Seq::new(v.len(), |i: int| entry_line(v[i]));
    if m == 0 {
        assert(ls.take(0) =~= Seq::<Seq<char>>::empty());
        assert(Seq::new(0nat, |i: int| as_loaded(v[i])) =~= Seq::<EntryView>::empty());
    } else {
        lemma_load_entries(v, m - 1);
        let t = ls.take(m);
        assert(t.drop_last() =~= ls.take(m - 1));
        assert(t.last() == entry_line(v[m - 1]));
        lemma_parse_entry_line(v[m - 1]);
        let acc = Seq::new((m - 1) as nat, |i: int| as_loaded(v[i]));
        let k = hex_spec(v[m - 1].1.key);
        assert(!contains_key(acc, k)) by {
            assert forall|i: int| 0 <= i < acc.len() implies #[trigger] acc[i].0 != k by {
                assert(acc[i].0 == v[i].0);
            }
        }
        lemma_key_index(acc, k);
        assert(acc.push((k, as_loaded(v[m - 1]).1)) =~= Seq::new(m as nat, |i: int| as_loaded(v[i])));
    }
}

/// Reading back the bytes a book is written as gives the same entries, in
/// the same order, each trusted and never seen, provided every entry is
/// filed under the hex text of its 32-byte key and every name fits on its
/// line.
pub proof fn law_contact_book_round_trip(v: Seq<EntryView>)
    requires
        distinct_keys(v),
        forall|i: int|
            0 <= i < v.len() ==> (#[trigger] v[i]).0 == hex_spec(v[i].1.key) && v[i].1.key.len() == 32
                && name_fits(v[i].1.name, i == v.len() - 1),
    ensures
        from_bytes_ok(encode_utf8(book_text(v))),
        from_bytes_spec(encode_utf8(book_text(v))) == Seq::new(v.len(), |i: int| as_loaded(v[i])),
{
    let ls = Seq::new(v.len(), |i: int| entry_line(v[i]));
    reveal_strlit(":");
    assert forall|i: int| 0 <= i < ls.len() implies (#[trigger] ls[i]).len() > 0 && (forall|k: int|
        0 <= k < ls[i].len() ==> ls[i][k] != '\n') && (i < ls.len() - 1 ==> ls[i].last() != '\r') by {
        let e = v[i];
        let h = hex_spec(e.1.key);
        let d = decimal_spec(e.1.added_at as nat);
        lemma_hex_spec_len(e.1.key);
        lemma_decimal_digits(e.1.added_at as nat);
        let l = ls[i];
        assert(l =~= h + seq![':'] + d + seq![':'] + e.1.name);
        assert forall|k: int| 0 <= k < l.len() implies l[k] != '\n' by {
            if k < h.len() {
                assert(l[k] == h[k]);
            } else if k == h.len() {
            } else if k < h.len() + 1 + d.len() {
                assert(l[k] == d[k - h.len() - 1]);
            } else if k == h.len() + 1 + d.len() {
            } else {
                assert(l[k] == e.1.name[k - h.len() - 2 - d.len()]);
            }
        }
        if e.1.name.len() > 0 {
            assert(l.last() == e.1.name.last());
        }
    }
    assert forall|i: int, k: int| 0 <= i < ls.len() && 0 <= k < ls[i].len() implies #[trigger] ls[i][k] != '\n' by {
        assert(ls[i].len() > 0);
    }
    lemma_lines_of_join(ls);
    let text = book_text(v);
    assert(text_lines(decode_utf8(encode_utf8(text))) == ls);
    lemma_load_entries(v, v.len() as int);
    assert(ls.take(v.len() as int) =~= ls);
    assert forall|j: int| 0 <= j < ls.len() implies line_ok(#[trigger] ls[j]) by {
        lemma_parse_entry_line(v[j]);
    }
}

/// Removing a contact just added gives back the book as it was.
pub proof fn law_remove_undoes_add(v: Seq<EntryView>, c: ContactView)
    requires
        distinct_keys(v),
        !contains_key(v, hex_spec(c.key)),
    ensures
        ({
            let added = v.push((hex_spec(c.key), c));
            &&& key_index(added, hex_spec(c.key)) == v.len()
            &&& added.remove(key_index(added, hex_spec(c.key))) == v
        }),
{
    let added = v.push((hex_spec(c.key), c));
    assert(added.drop_last() =~= v);
    assert(added.remove(v.len() as int) =~= v);
}

/// The contact book, stored encrypted on the device.
pub struct ContactBook {
    /// Entries filed under the hex text of their key.
    pub contacts: Vec<(String, Contact)>,
}

impl View for ContactBook {
    type V = Seq<EntryView>;

    open spec fn view(&self) -> Seq<EntryView> {
        Seq::new(self.contacts@.len(), |i: int| (self.contacts@[i].0@, self.contacts@[i].1@))
    }
}

impl ContactBook {
    /// No two entries under the same text.
    pub open spec fn wf(&self) -> bool {
        distinct_keys(self@)
    }

    /// An empty book.
    pub fn new() -> (b: Self)
        ensures
            b@ == Seq::<EntryView>::empty(),
            b.wf(),
    {
        ContactBook { contacts: Vec::new() }
    }

    /// Position of the entry filed under `k`.
    fn position(&self, k: &[char]) -> (r: Option<usize>)
        ensures
            match r {
                Some(i) => i == key_index(self@, k@),
                None => key_index(self@, k@) == -1,
            },
    {
        let mut i = self.contacts.len();
        assert(self@.take(i as int) =~= self@);
        while i > 0
            invariant
                i <= self@.len(),
                key_index(self@, k@) == key_index(self@.take(i as int), k@),
            decreases i,
        {
            let name = chars_of(self.contacts[i - 1].0.as_str());
            proof {
                assert(self@.take(i as int).drop_last() =~= self@.take(i - 1));
            }
            if chars_eq(name.as_slice(), k) {
                return Some(i - 1);
            }
            i -= 1;
        }
        None
    }

    /// Add a contact, filed under the hex text of its key.  Refused when
    /// an entry is already filed there.
    pub fn add(&mut self, contact: Contact) -> (r: Result<(), String>)
        requires
            old(self).wf(),
        ensures
            final(self).wf(),
            contains_key(old(self)@, hex_spec(contact.key.0@)) ==> r is Err && r->Err_0@ == "contact "@
                + contact.name@ + " already exists"@ && final(self)@ == old(self)@,
            !contains_key(old(self)@, hex_spec(contact.key.0@)) ==> r is Ok && final(self)@ == old(self)@.push(
                (hex_spec(contact.key.0@), contact@),
            ),
    {
        let key_hex = contact.key.to_hex();
        let k = chars_of(key_hex.as_str());
        proof {
            lemma_key_index(self@, k@);
        }
        if self.position(k.as_slice()).is_some() {
            let head = concat_str("contact ", contact.name.as_str());
            return Err(concat_str(head.as_str(), " already exists"));
        }
        let ghost before = self@;
        self.contacts.push((key_hex, contact));
        proof {
            assert(self@ =~= before.push((k@, contact@)));
        }
        Ok(())
    }

    /// Remove the contact filed under this key, if any: it can no longer
    /// reach the device.
    pub fn remove(&mut self, key: &IdentityKey) -> (r: Result<(), String>)
        requires
            old(self).wf(),
        ensures
            r is Ok,
            final(self).wf(),
            !contains_key(final(self)@, hex_spec(key.0@)),
            key_index(old(self)@, hex_spec(key.0@)) == -1 ==> final(self)@ == old(self)@,
            key_index(old(self)@, hex_spec(key.0@)) >= 0 ==> final(self)@ == old(self)@.remove(
                key_index(old(self)@, hex_spec(key.0@)),
            ),
    {
        let key_hex = key.to_hex();
        let k = chars_of(key_hex.as_str());
        proof {
            lemma_key_index(self@, k@);
        }
        match self.position(k.as_slice()) {
            Some(i) => {
                let ghost before = self@;
                let _ = self.contacts.remove(i);
                proof {
                    assert(self@ =~= before.remove(i as int));
                    assert forall|j: int| 0 <= j < self@.len() implies #[trigger] self@[j].0 != k@ by {
                        if j < i {
                            assert(self@[j] == before[j]);
                        } else {
                            assert(self@[j] == before[j + 1]);
                        }
                    }
                }
            },
            None => {},
        }
        Ok(())
    }

    /// Whether the key is in the book: asked of every incoming call and
    /// message, which is dropped when it is not.
    pub fn is_trusted(&self, key: &IdentityKey) -> (b: bool)
        ensures
            b == contains_key(self@, hex_spec(key.0@)),
    {
        let key_hex = key.to_hex();
        let k = chars_of(key_hex.as_str());
        proof {
            lemma_key_index(self@, k@);
        }
        self.position(k.as_slice()).is_some()
    }

    /// The contact filed under this key.
    pub fn find(&self, key: &IdentityKey) -> (r: Option<&Contact>)
        ensures
            r is None <==> !contains_key(self@, hex_spec(key.0@)),
            r is Some ==> r->0@ == self@[key_index(self@, hex_spec(key.0@))].1,
    {
        let key_hex = key.to_hex();
        let k = chars_of(key_hex.as_str());
        proof {
            lemma_key_index(self@, k@);
        }
        match self.position(k.as_slice()) {
            Some(i) => Some(&self.contacts[i].1),
            None => None,
        }
    }

    /// Every contact, in name order.
    pub fn all(&self) -> (r: Vec<&Contact>)
        ensures
            r@.len() == self@.len(),
            exists|idx: Seq<int>|
                is_permutation(idx, self@.len() as int) && forall|k: int|
                    0 <= k < r@.len() ==> #[trigger] r@[k]@ == self@[idx[k]].1,
            forall|a: int, b: int| 0 <= a < b < r@.len() ==> text_le(r@[a].name@, r@[b].name@),
    {
        let mut names: Vec<Vec<char>> = Vec::new();
        let mut i: usize = 0;
        while i < self.contacts.len()
            invariant
                i <= self@.len(),
                names@.len() == i,
                forall|k: int| 0 <= k < i ==> #[trigger] names@[k]@ == self@[k].1.name,
            decreases self@.len() - i,
        {
            names.push(chars_of(self.contacts[i].1.name.as_str()));
            i += 1;
        }
        let order = order_by_name(&names);
        let ghost idx = Seq::new(order@.len(), |k: int| order@[k] as int);
        let mut r: Vec<&Contact> = Vec::new();
        let mut j: usize = 0;
        while j < order.len()
            invariant
                order@.len() == self@.len(),
                names@.len() == self@.len(),
                forall|k: int| 0 <= k < names@.len() ==> #[trigger] names@[k]@ == self@[k].1.name,
                idx == Seq::new(order@.len(), |k: int| order@[k] as int),
                is_permutation(idx, self@.len() as int),
                j <= order@.len(),
                r@.len() == j,
                forall|k: int| 0 <= k < j ==> #[trigger] r@[k]@ == self@[idx[k]].1,
            decreases order@.len() - j,
        {
            assert(0 <= idx[j as int] < self@.len());
            r.push(&self.contacts[order[j]].1);
            j += 1;
        }
        proof {
            assert forall|a: int, b: int| 0 <= a < b < r@.len() implies text_le(r@[a].name@, r@[b].name@) by {
                assert(r@[a]@ == self@[idx[a]].1);
                assert(r@[b]@ == self@[idx[b]].1);
                assert(names@[order@[a] as int]@ == self@[idx[a]].1.name);
                assert(names@[order@[b] as int]@ == self@[idx[b]].1.name);
            }
        }
        r
    }

    /// Number of contacts.
    pub fn count(&self) -> (n: usize)
        ensures
            n == self@.len(),
    {
        self.contacts.len()
    }

    /// The book as bytes, for the daemon to store encrypted: one line
    /// `key_hex:added_at:name` per contact.
    pub fn to_bytes(&self) -> (r: Vec<u8>)
        ensures
            r@ == encode_utf8(book_text(self@)),
    {
        let mut text: Vec<char> = Vec::new();
        let mut i: usize = 0;
        let ghost lines = Seq::new(self@.len(), |k: int| entry_line(self@[k]));
        while i < self.contacts.len()
            invariant
                i <= self@.len(),
                lines == Seq::new(self@.len(), |k: int| entry_line(self@[k])),
                text@ == join_lines(lines.take(i as int)),
            decreases self@.len() - i,
        {
            let c = &self.contacts[i].1;
            let ghost head = text@;
            if i > 0 {
                text.push('\n');
            }
            let h = c.key.to_hex();
            let d = decimal(c.added_at);
            let part = concat_str(h.as_str(), ":");
            let part = concat_str(part.as_str(), d.as_str());
            let part = concat_str(part.as_str(), ":");
            let part = concat_str(part.as_str(), c.name.as_str());
            let pc = chars_of(part.as_str());
            let ghost mid = text@;
            let mut k: usize = 0;
            while k < pc.len()
                invariant
                    k <= pc@.len(),
                    text@ == mid + pc@.take(k as int),
                decreases pc@.len() - k,
            {
                text.push(pc[k]);
                proof {
                    assert(text@ =~= mid + pc@.take(k + 1));
                }
                k += 1;
            }
            proof {
                assert(pc@.take(pc@.len() as int) =~= pc@);
                assert(pc@ == entry_line(self@[i as int]));
                assert(lines.take(i + 1).drop_last() =~= lines.take(i as int));
                if i == 0 {
                    assert(text@ =~= lines.take(1)[0]);
                } else {
                    assert(text@ =~= head + seq!['\n'] + pc@);
                }
            }
            i += 1;
        }
        proof {
            assert(lines.take(self@.len() as int) =~= lines);
        }
        let s = string_of(text.as_slice());
        s.as_str().as_bytes_vec()
    }

    /// Store `e` under `k`, in place of an entry already filed there.
    fn upsert_exec(&mut self, k: String, c: Contact)
        requires
            old(self).wf(),
        ensures
            final(self).wf(),
            final(self)@ == upsert(old(self)@, k@, c@),
    {
        let kc = chars_of(k.as_str());
        proof {
            lemma_key_index(self@, k@);
            lemma_upsert_distinct(self@, k@, c@);
        }
        let ghost before = self@;
        match self.position(kc.as_slice()) {
            Some(i) => {
                self.contacts.set(i, (k, c));
                proof {
                    assert(self@ =~= before.update(i as int, (k@, c@)));
                }
            },
            None => {
                self.contacts.push((k, c));
                proof {
                    assert(self@ =~= before.push((k@, c@)));
                }
            },
        }
    }

    /// Read a book back from bytes.  Lines that are not `hex:added_at:name`
    /// with a valid key are skipped; a number that does not parse counts as
    /// 0; bytes that are not UTF-8 give an empty book.
    pub fn from_bytes(data: &[u8]) -> (b: Self)
        requires
            from_bytes_ok(data@),
        ensures
            b.wf(),
            b@ == from_bytes_spec(data@),
    {
        let mut book = ContactBook::new();
        let text = match utf8_decode(data) {
            Some(t) => t,
            None => return book,
        };
        let chars = chars_of(text.as_str());
        let lines = split_lines(chars.as_slice());
        let ghost ls = text_lines(chars@);
        let mut j: usize = 0;
        proof {
            assert(ls.take(0) =~= Seq::<Seq<char>>::empty());
        }
        while j < lines.len()
            invariant
                ls == text_lines(decode_utf8(data@)),
                lines@.len() == ls.len(),
                forall|k: int| 0 <= k < lines@.len() ==> #[trigger] lines@[k]@ == ls[k],
                forall|k: int| 0 <= k < ls.len() ==> line_ok(#[trigger] ls[k]),
                j <= lines@.len(),
                book.wf(),
                book@ == load_lines(ls.take(j as int)),
            decreases lines@.len() - j,
        {
            let line = lines[j].as_slice();
            proof {
                assert(ls.take(j + 1).drop_last() =~= ls.take(j as int));
                assert(line@ == ls[j as int]);
                assert(line_ok(ls[j as int]));
                lemma_find_char(line@, ':', 0);
            }
            let c1 = find_char_exec(line, ':', 0);
            if c1 < line.len() {
                proof {
                    lemma_find_char(line@, ':', c1 + 1);
                }
                let c2 = find_char_exec(line, ':', c1 + 1);
                if c2 < line.len() {
                    let part0 = slice_chars(line, 0, c1);
                    let key_text = string_of(part0.as_slice());
                    proof {
                        assert(line@.take(c1 as int) =~= part0@);
                    }
                    match IdentityKey::from_hex(key_text.as_str()) {
                        Ok(key) => {
                            let part1 = slice_chars(line, c1 + 1, c2);
                            let part2 = slice_chars(line, c2 + 1, line.len());
                            let added_at = match parse_u64(part1.as_slice()) {
                                Some(n) => n,
                                None => 0,
                            };
                            let contact = Contact {
                                name: string_of(part2.as_slice()),
                                key,
                                added_at,
                                last_seen: None,
                                trusted: true,
                            };
                            proof {
                                assert(line@.skip(c2 + 1) =~= part2@);
                            }
                            book.upsert_exec(key_text, contact);
                        },
                        Err(_) => {},
                    }
                }
            }
            j += 1;
        }
        proof {
            assert(ls.take(ls.len() as int) =~= ls);
        }
        book
    }
}

} // verus!
