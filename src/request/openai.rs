//! Token accounting for the chat-completion client, and the extraction of
//! the program from a generator's answer.
use vstd::prelude::*;

use crate::text::{has_prefix, trim_str, trimmed};

verus! {

/// Tokens used by one or more requests.
pub struct TokenUsage {
    pub prompt_tokens: u32,
    pub completion_tokens: u32,
    pub total_tokens: u32,
}

impl TokenUsage {
    /// A usage record.
    pub fn new(prompt_tokens: u32, completion_tokens: u32, total_tokens: u32) -> (r: TokenUsage)
        ensures
            r.prompt_tokens == prompt_tokens,
            r.completion_tokens == completion_tokens,
            r.total_tokens == total_tokens,
    {
        TokenUsage { prompt_tokens, completion_tokens, total_tokens }
    }

    /// Adds another record to this one.
    pub fn add(&mut self, other: &TokenUsage)
        requires
            old(self).prompt_tokens + other.prompt_tokens <= u32::MAX,
            old(self).completion_tokens + other.completion_tokens <= u32::MAX,
            old(self).total_tokens + other.total_tokens <= u32::MAX,
        ensures
            final(self).prompt_tokens == old(self).prompt_tokens + other.prompt_tokens,
            final(self).completion_tokens == old(self).completion_tokens + other.completion_tokens,
            final(self).total_tokens == old(self).total_tokens + other.total_tokens,
    {
        self.prompt_tokens = self.prompt_tokens + other.prompt_tokens;
        self.completion_tokens = self.completion_tokens + other.completion_tokens;
        self.total_tokens = self.total_tokens + other.total_tokens;
    }
}

/// `p` occurs in `s` at position `i`.
pub open spec fn occurs_at(s: Seq<char>, p: Seq<char>, i: int) -> bool {
    0 <= i && i + p.len() <= s.len() && s.subrange(i, i + p.len()) == p
}

/// The first position of `p` in `s`.
pub open spec fn first_occurrence(s: Seq<char>, p: Seq<char>) -> Option<int> {
    if exists|i: int| occurs_at(s, p, i) {
        Some(choose|i: int| occurs_at(s, p, i) && forall|j: int| 0 <= j < i ==> !occurs_at(s, p, j))
    } else {
        None
    }
}

/// The last position of `p` in `s`.
pub open spec fn last_occurrence(s: Seq<char>, p: Seq<char>) -> Option<int> {
    if exists|i: int| occurs_at(s, p, i) {
        Some(choose|i: int| occurs_at(s, p, i) && forall|j: int| i < j ==> !occurs_at(s, p, j))
    } else {
        None
    }
}

/// `s` without the prefix "```" + `pat`, if it has it.
pub open spec fn strip_fence(s: Seq<char>, pat: Seq<char>) -> Seq<char> {
    let p = "```"@ + pat;
    if has_prefix(s, p) {
        s.subrange(p.len() as int, s.len() as int)
    } else {
        s
    }
}

/// The code of a generator's answer: the text before the first code fence
/// becomes a leading comment, the fence and its language tag go, and so does
/// everything from the last fence on.
pub open spec fn unwrapped_code(input: Seq<char>) -> Seq<char> {
    let t = trimmed(input);
    let event = match first_occurrence(t, "```"@) {
        Some(i) => t.subrange(0, i),
        None => seq![],
    };
    let rest = match first_occurrence(t, "```"@) {
        Some(i) => t.subrange(i, t.len() as int),
        None => t,
    };
    let rest = strip_fence(rest, "cpp"@);
    let rest = strip_fence(rest, "CPP"@);
    let rest = strip_fence(rest, "C++"@);
    let rest = strip_fence(rest, "c++"@);
    let rest = strip_fence(rest, "c"@);
    let rest = strip_fence(rest, "C"@);
    let rest = strip_fence(rest, "\n"@);
    let body = match last_occurrence(rest, "```"@) {
        Some(j) => rest.subrange(0, j),
        None => rest,
    };
    "/*"@ + event + "*/\n"@ + body
}

/// Whether `p` occurs in `s` at position `i`.
fn occurs_at_exec(s: &str, p: &str, i: usize) -> (r: bool)
    ensures
        r == occurs_at(s@, p@, i as int),
{
    let n = s.unicode_len();
    let m = p.unicode_len();
    if i > n || m > n - i {
        return false;
    }
    let tail = s.substring_char(i, i + m);
    let r = crate::text::starts_with(tail, p);
    assert(tail@.subrange(0, m as int) =~= tail@);
    assert(tail@ == s@.subrange(i as int, i + m));
    r
}

/// The first position of `p` in `s`.
fn find_str(s: &str, p: &str) -> (r: Option<usize>)
    ensures
        r matches Some(i) ==> first_occurrence(s@, p@) == Some(i as int) && occurs_at(s@, p@, i as int),
        r is None ==> first_occurrence(s@, p@) is None,
{
    let n = s.unicode_len();
    let mut i: usize = 0;
    while i <= n
        invariant
            n == s@.len(),
            i <= n + 1,
            forall|j: int| 0 <= j < i ==> !occurs_at(s@, p@, j),
        decreases n + 1 - i,
    {
        if occurs_at_exec(s, p, i) {
            return Some(i);
        }
        if i == n {
            assert forall|j: int| #![auto] !occurs_at(s@, p@, j) by {
                if j > n as int {
                    assert(!occurs_at(s@, p@, j));
                }
            }
            return None;
        }
        i += 1;
    }
    None
}

/// The last position of `p` in `s`.
fn rfind_str(s: &str, p: &str) -> (r: Option<usize>)
    ensures
        r matches Some(i) ==> last_occurrence(s@, p@) == Some(i as int) && occurs_at(s@, p@, i as int),
        r is None ==> last_occurrence(s@, p@) is None,
{
    let n = s.unicode_len();
    let mut i: usize = n;
    loop
        invariant
            n == s@.len(),
            i <= n,
            forall|j: int| i < j ==> !occurs_at(s@, p@, j),
        decreases i,
    {
        if occurs_at_exec(s, p, i) {
            return Some(i);
        }
        if i == 0 {
            return None;
        }
        i -= 1;
    }
}

/// Removes the fence "```" + `pat` from the front of `s`, if it is there.
pub fn strip_code_prefix(input: &str, pat: &str) -> (r: String)
    ensures
        r@ == strip_fence(input@, pat@),
{
    let mut fence = String::new();
    fence.append("```");
    fence.append(pat);
    if crate::text::starts_with(input, fence.as_str()) {
        let n = input.unicode_len();
        input.substring_char(fence.unicode_len(), n).to_string()
    } else {
        input.to_string()
    }
}

/// The program in a generator's answer, the explanation before it kept as
/// a comment.
pub fn strip_code_wrapper(input: &str) -> (r: String)
    ensures
        r@ == unwrapped_code(input@),
{
    proof {
        reveal_strlit("```");
    }
    let t = trim_str(input);
    let ts = t.as_str();
    let n = ts.unicode_len();
    let (event, rest) = match find_str(ts, "```") {
        Some(i) => (ts.substring_char(0, i), ts.substring_char(i, n)),
        None => ("", ts),
    };
    let r1 = strip_code_prefix(rest, "cpp");
    let r2 = strip_code_prefix(r1.as_str(), "CPP");
    let r3 = strip_code_prefix(r2.as_str(), "C++");
    let r4 = strip_code_prefix(r3.as_str(), "c++");
    let r5 = strip_code_prefix(r4.as_str(), "c");
    let r6 = strip_code_prefix(r5.as_str(), "C");
    let r7 = strip_code_prefix(r6.as_str(), "\n");
    let body = match rfind_str(r7.as_str(), "```") {
        Some(j) => r7.as_str().substring_char(0, j),
        None => r7.as_str(),
    };
    let mut out = String::new();
    out.append("/*");
    out.append(event);
    out.append("*/\n");
    out.append(body);
    proof {
        reveal_strlit("");
    }
    out
}

} // verus!
