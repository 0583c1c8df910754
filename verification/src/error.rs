use vstd::prelude::*;
use vstd::string::{StrSliceExecFns, StringExecFns};

verus! {

/// The most recent error of one thread. A message never holds a NUL character, so
/// that it can be handed out as a C string.
#[derive(Debug)]
pub struct LastError {
    pub message: Option<String>,
}

pub open spec fn has_nul(s: Seq<char>) -> bool {
    exists|i: int| 0 <= i < s.len() && #[trigger] s[i] == '\0'
}

/// What is kept of a message.
pub open spec fn recorded(message: Seq<char>) -> Seq<char> {
    if has_nul(message) {
        "<error message omitted: contained an embedded NUL byte>"@
    } else {
        message
    }
}

impl LastError {
    pub open spec fn well_formed(self) -> bool {
        self.message matches Some(m) ==> !has_nul(m@)
    }

    /// Nothing recorded.
    pub fn new() -> (r: LastError)
        ensures
            r.message is None,
            r.well_formed(),
    {
        LastError { message: None }
    }
}

fn contains_nul(s: &str) -> (r: bool)
    ensures
        r == has_nul(s@),
{
    let n: usize = s.unicode_len();
    let mut i: usize = 0;
    while i < n
        invariant
            n == s@.len(),
            i <= n,
            forall|j: int| 0 <= j < i ==> #[trigger] s@[j] != '\0',
        decreases n - i,
    {
        if s.get_char(i) == '\0' {
            return true;
        }
        i = i + 1;
    }
    false
}

/// Records `message` as the last error, in place of whatever was recorded before. A
/// message with a NUL character is replaced by a fixed text.
pub fn set_last_error(slot: &mut LastError, message: String)
    ensures
        final(slot).message is Some,
        final(slot).message->0@ == recorded(message@),
        final(slot).well_formed(),
{
    if contains_nul(message.as_str()) {
        let fixed = "<error message omitted: contained an embedded NUL byte>";
        proof {
            reveal_strlit("<error message omitted: contained an embedded NUL byte>");
        }
        slot.message = Some(String::from_str(fixed));
    } else {
        slot.message = Some(message);
    }
}

/// Forgets the last error.
pub fn clear_last_error(slot: &mut LastError)
    ensures
        final(slot).message is None,
        final(slot).well_formed(),
{
    slot.message = None;
}

/// The last error, or `None` where there is none.
pub fn anthroforge_last_error(slot: &LastError) -> (r: Option<&str>)
    ensures
        match slot.message {
            Some(m) => r is Some && r->0@ == m@,
            None => r is None,
        },
{
    match &slot.message {
        Some(m) => Some(m.as_str()),
        None => None,
    }
}

/// A message without a NUL character is kept as it is.
pub proof fn law_plain_messages_are_kept(message: Seq<char>)
    requires
        forall|i: int| 0 <= i < message.len() ==> #[trigger] message[i] != '\0',
    ensures
        recorded(message) == message,
{
}

} // verus!
