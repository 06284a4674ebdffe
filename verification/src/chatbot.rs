use vstd::prelude::*;

use crate::text::{chars_of, push_char, push_chars};

verus! {

/// The name of the file that keeps a user's chat session: the user name followed by `.txt`.
pub fn session_file_name(username: &String) -> (name: String)
    ensures
        name@ == username@ + seq!['.', 't', 'x', 't'],
{
    let mut name = String::new();
    let chars = chars_of(username.as_str());
    push_chars(&mut name, &chars);
    push_char(&mut name, '.');
    push_char(&mut name, 't');
    push_char(&mut name, 'x');
    push_char(&mut name, 't');
    assert(name@ =~= username@ + seq!['.', 't', 'x', 't']);
    name
}

/// The messages of a chat history that a user sees: all of them but the first, which is the
/// system prompt.
pub fn history_after_prompt(contents: Vec<String>) -> (shown: Vec<String>)
    requires
        contents@.len() >= 1,
    ensures
        shown@.len() == contents@.len() - 1,
        forall|i: int| 0 <= i < shown@.len() ==> (#[trigger] shown@[i])@ == contents@[i + 1]@,
{
    let mut shown: Vec<String> = Vec::new();
    let n = contents.len();
    for i in 1..n
        invariant
            n == contents@.len(),
            shown@.len() == i - 1,
            forall|k: int| 0 <= k < shown@.len() ==> (#[trigger] shown@[k])@ == contents@[k + 1]@,
    {
        shown.push(contents[i].clone());
    }
    shown
}

/// Where the chat that answers a user's message comes from.
#[derive(Debug, Clone, Copy, PartialEq, Eq, Structural)]
pub enum SessionSource {
    /// The session held in the cache.
    Cached,
    /// The session saved in the user's file, which then goes into the cache.
    Saved,
    /// A new session with the system prompt, which then goes into the cache.
    Fresh,
}

/// Chooses where a user's chat comes from: the cache where it holds the user's session, else
/// the user's file where there is one, else a new session.
pub fn session_source(in_cache: bool, saved_on_disk: bool) -> (source: SessionSource)
    ensures
        source == if in_cache {
            SessionSource::Cached
        } else if saved_on_disk {
            SessionSource::Saved
        } else {
            SessionSource::Fresh
        },
{
    if in_cache {
        SessionSource::Cached
    } else if saved_on_disk {
        SessionSource::Saved
    } else {
        SessionSource::Fresh
    }
}

} // verus!
