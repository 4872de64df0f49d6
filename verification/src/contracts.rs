//! Stable event and actor contracts.
use vstd::prelude::*;

use crate::text;
use crate::text::{chars_of, char_is_ascii_digit, char_is_ascii_lowercase, is_blank};

verus! {

pub const PRODUCT: &'static str = "hacker-house-medellin";

#[derive(Clone, Debug, Eq, PartialEq)]
pub struct Actor {
    pub id: String,
    pub tenant_id: String,
}

#[derive(Clone, Debug, Eq, PartialEq)]
pub struct EventEnvelope {
    pub id: String,
    pub kind: String,
    pub occurred_at: String,
    pub actor: Option<Actor>,
}

/// A character that may stand in a namespace segment of an event kind.
pub open spec fn kind_segment_char(c: char) -> bool {
    text::is_ascii_lowercase(c) || text::is_ascii_digit(c) || c == '_' || c == '-'
}

/// An event kind is lowercase and namespaced: it is non-empty, holds at
/// least one `.`, every other character is a lowercase ASCII letter, a digit,
/// `_` or `-`, and it starts with a `.` or a lowercase letter.
pub open spec fn spec_valid_kind(s: Seq<char>) -> bool {
    &&& s.len() > 0
    &&& s.contains('.')
    &&& forall|i: int| 0 <= i < s.len() ==> (#[trigger] s[i] == '.' || kind_segment_char(s[i]))
    &&& (s[0] == '.' || text::is_ascii_lowercase(s[0]))
}

/// What `EventEnvelope::validate` answers for an envelope with these fields:
/// the first failing check, by its message.
pub open spec fn spec_validate_event(id: Seq<char>, kind: Seq<char>, occurred_at: Seq<char>) -> Result<(), Seq<char>> {
    if text::trim(id).len() == 0 {
        Err("event id is required"@)
    } else if !spec_valid_kind(kind) {
        Err("event kind must be lowercase and namespaced"@)
    } else if text::trim(occurred_at).len() == 0 {
        Err("occurred_at is required"@)
    } else {
        Ok(())
    }
}

/// Which strings are event kinds, character by character: non-empty, with at
/// least one `.`, made only of `.`, `a`-`z`, `0`-`9`, `_` and `-`, and starting
/// with `.` or a letter `a`-`z`. Any number of `.` is allowed.
pub proof fn lemma_valid_kind_characters(s: Seq<char>)
    ensures
        spec_valid_kind(s) <==> {
            &&& s.len() > 0
            &&& exists|i: int| 0 <= i < s.len() && #[trigger] s[i] == '.'
            &&& forall|i: int|
                0 <= i < s.len() ==> (#[trigger] s[i] == '.' || ('a' <= s[i] <= 'z') || ('0' <= s[i]
                    <= '9') || s[i] == '_' || s[i] == '-')
            &&& (s[0] == '.' || ('a' <= s[0] <= 'z'))
        },
{
    if exists|i: int| 0 <= i < s.len() && #[trigger] s[i] == '.' {
        let i = choose|i: int| 0 <= i < s.len() && #[trigger] s[i] == '.';
        assert(s.contains(s[i]));
    }
}

/// Inserting a further `.segment` anywhere into an event kind, where the
/// segment is made of `a`-`z`, `0`-`9`, `_` and `-`, leaves an event kind.
pub proof fn lemma_valid_kind_insert_segment(s: Seq<char>, at: int, segment: Seq<char>)
    requires
        spec_valid_kind(s),
        0 <= at <= s.len(),
        forall|i: int|
            0 <= i < segment.len() ==> (('a' <= #[trigger] segment[i] <= 'z') || ('0' <= segment[i]
                <= '9') || segment[i] == '_' || segment[i] == '-'),
    ensures
        spec_valid_kind(s.take(at) + seq!['.'] + segment + s.skip(at)),
{
    let t = s.take(at) + seq!['.'] + segment + s.skip(at);
    lemma_valid_kind_characters(s);
    assert(t[at] == '.');
    assert forall|i: int| 0 <= i < t.len() implies (#[trigger] t[i] == '.' || kind_segment_char(t[i])) by {
        if i < at {
            assert(t[i] == s[i]);
        } else if i == at {
        } else if i <= at + segment.len() {
            assert(t[i] == segment[i - at - 1]);
        } else {
            assert(t[i] == s[i - 1 - segment.len()]);
        }
    }
    if at > 0 {
        assert(t[0] == s[0]);
    }
    lemma_valid_kind_characters(t);
}

/// Validation passes exactly when the id holds a non-whitespace character,
/// the kind is an event kind and the timestamp holds a non-whitespace
/// character; otherwise the message names the first of these that fails.
pub proof fn lemma_validate_event_outcome(id: Seq<char>, kind: Seq<char>, occurred_at: Seq<char>)
    ensures
        ({
            let id_present = exists|i: int| 0 <= i < id.len() && !text::is_whitespace(#[trigger] id[i]);
            let at_present = exists|i: int|
                0 <= i < occurred_at.len() && !text::is_whitespace(#[trigger] occurred_at[i]);
            spec_validate_event(id, kind, occurred_at) == if !id_present {
                Err("event id is required"@)
            } else if !spec_valid_kind(kind) {
                Err("event kind must be lowercase and namespaced"@)
            } else if !at_present {
                Err("occurred_at is required"@)
            } else {
                Ok(())
            }
        }),
{
    text::lemma_trim_empty_iff_whitespace(id);
    text::lemma_trim_empty_iff_whitespace(occurred_at);
}

pub open spec fn message_view(r: Result<(), &'static str>) -> Result<(), Seq<char>> {
    match r {
        Ok(()) => Ok(()),
        Err(m) => Err(m@),
    }
}

impl EventEnvelope {
    /// Checks, in order, that the id is not blank, that the kind is lowercase
    /// and namespaced, and that the timestamp is not blank; the error is the
    /// message of the first check that fails.
    pub fn validate(&self) -> (r: Result<(), &'static str>)
        ensures
            message_view(r) == spec_validate_event(self.id@, self.kind@, self.occurred_at@),
    {
        if is_blank(self.id.as_str()) {
            return Err("event id is required");
        }
        if !valid_kind(self.kind.as_str()) {
            return Err("event kind must be lowercase and namespaced");
        }
        if is_blank(self.occurred_at.as_str()) {
            return Err("occurred_at is required");
        }
        Ok(())
    }
}

/// Whether `value` is a lowercase, namespaced event kind (see `spec_valid_kind`).
pub fn valid_kind(value: &str) -> (r: bool)
    ensures
        r == spec_valid_kind(value@),
{
    let chars = chars_of(value);
    let n = chars.len();
    if n == 0 {
        return false;
    }
    let mut saw_dot = false;
    let mut index: usize = 0;
    while index < n
        invariant
            n == chars@.len(),
            chars@ == value@,
            n > 0,
            index <= n,
            saw_dot == chars@.take(index as int).contains('.'),
            forall|i: int| 0 <= i < index ==> (#[trigger] chars@[i] == '.' || kind_segment_char(chars@[i])),
            index > 0 ==> (chars@[0] == '.' || text::is_ascii_lowercase(chars@[0])),
        decreases n - index,
    {
        let ch = chars[index];
        proof {
            assert(chars@.take(index + 1) == chars@.take(index as int).push(ch));
        }
        if ch == '.' {
            assert(chars@.take(index + 1)[index as int] == '.');
            saw_dot = true;
            index = index + 1;
            continue;
        }
        if !(char_is_ascii_lowercase(ch) || char_is_ascii_digit(ch) || ch == '_' || ch == '-') {
            return false;
        }
        if index == 0 && !char_is_ascii_lowercase(ch) {
            return false;
        }
        proof {
            let t = chars@.take(index as int);
            if t.push(ch).contains('.') {
                let k = choose|k: int| 0 <= k < t.push(ch).len() && t.push(ch)[k] == '.';
                assert(t[k] == '.');
            }
        }
        index = index + 1;
    }
    assert(chars@.take(n as int) == chars@);
    saw_dot
}

} // verus!
