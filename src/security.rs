//! Policy boundaries: which commands may run and which paths are off limits.
use vstd::prelude::*;

verus! {

/// How far the agent may act on its own.
#[derive(Debug, Clone, Copy, PartialEq, Eq, Structural)]
pub enum AutonomyLevel {
    /// Can observe but not act.
    ReadOnly,
    /// External actions require approval.
    Supervised,
    /// Acts on its own.
    Full,
}

impl Default for AutonomyLevel {
    fn default() -> (r: AutonomyLevel)
        ensures
            r == AutonomyLevel::Supervised,
    {
        AutonomyLevel::Supervised
    }
}

/// A security policy.
#[derive(Debug)]
pub struct SecurityPolicy {
    pub autonomy: AutonomyLevel,
    pub workspace_only: bool,
    pub allowed_commands: Vec<String>,
    pub forbidden_paths: Vec<String>,
    pub require_pairing: bool,
}

/// The views of a list of strings.
pub open spec fn views(v: Seq<String>) -> Seq<Seq<char>> {
    v.map_values(|s: String| s@)
}

fn strings(items: &[&str]) -> (r: Vec<String>)
    ensures
        r@.len() == items@.len(),
        forall|i: int| 0 <= i < items@.len() ==> (#[trigger] r@[i])@ == items@[i]@,
{
    let mut out: Vec<String> = Vec::new();
    let mut i: usize = 0;
    while i < items.len()
        invariant
            i <= items@.len(),
            out@.len() == i,
            forall|j: int| 0 <= j < i ==> (#[trigger] out@[j])@ == items@[j]@,
        decreases items@.len() - i,
    {
        out.push(items[i].to_owned());
        i = i + 1;
    }
    out
}

impl Default for SecurityPolicy {
    fn default() -> (r: SecurityPolicy)
        ensures
            r.autonomy == AutonomyLevel::Supervised,
            r.workspace_only,
            r.require_pairing,
            views(r.allowed_commands@) == seq!["git"@, "cargo"@, "ls"@, "cat"@, "grep"@],
            views(r.forbidden_paths@) == seq!["/etc"@, "/root"@, "/proc"@, "/sys"@, "~/.ssh"@, "~/.gnupg"@, "~/.aws"@],
    {
        let allowed_commands = strings(&["git", "cargo", "ls", "cat", "grep"]);
        let forbidden_paths = strings(&["/etc", "/root", "/proc", "/sys", "~/.ssh", "~/.gnupg", "~/.aws"]);
        assert(views(allowed_commands@) =~= seq!["git"@, "cargo"@, "ls"@, "cat"@, "grep"@]);
        assert(views(forbidden_paths@) =~= seq!["/etc"@, "/root"@, "/proc"@, "/sys"@, "~/.ssh"@, "~/.gnupg"@, "~/.aws"@]);
        SecurityPolicy {
            autonomy: AutonomyLevel::Supervised,
            workspace_only: true,
            allowed_commands,
            forbidden_paths,
            require_pairing: true,
        }
    }
}

/// Unicode white space, as `char::is_whitespace` tells it.
pub open spec fn is_space(c: char) -> bool {
    ('\u{9}' <= c && c <= '\u{d}') || c == ' ' || c == '\u{85}' || c == '\u{a0}' || c == '\u{1680}'
        || ('\u{2000}' <= c && c <= '\u{200a}') || c == '\u{2028}' || c == '\u{2029}' || c == '\u{202f}'
        || c == '\u{205f}' || c == '\u{3000}'
}

fn space(c: char) -> (r: bool)
    ensures
        r == is_space(c),
{
    ('\u{9}' <= c && c <= '\u{d}') || c == ' ' || c == '\u{85}' || c == '\u{a0}' || c == '\u{1680}'
        || ('\u{2000}' <= c && c <= '\u{200a}') || c == '\u{2028}' || c == '\u{2029}' || c == '\u{202f}'
        || c == '\u{205f}' || c == '\u{3000}'
}

/// The characters of `s` up to its first white space.
pub open spec fn word_prefix(s: Seq<char>) -> Seq<char>
    decreases s.len(),
{
    if s.len() == 0 || is_space(s[0]) {
        Seq::empty()
    } else {
        seq![s[0]] + word_prefix(s.drop_first())
    }
}

/// The first white-space separated word of `s`; empty where there is none.
pub open spec fn first_word(s: Seq<char>) -> Seq<char>
    decreases s.len(),
{
    if s.len() == 0 {
        Seq::empty()
    } else if is_space(s[0]) {
        first_word(s.drop_first())
    } else {
        word_prefix(s)
    }
}

proof fn lemma_word_prefix_step(s: Seq<char>, start: int, j: int)
    requires
        0 <= start <= j < s.len(),
        !is_space(s[j]),
        word_prefix(s.subrange(start, s.len() as int)) == s.subrange(start, j) + word_prefix(s.subrange(j, s.len() as int)),
    ensures
        word_prefix(s.subrange(start, s.len() as int)) == s.subrange(start, j + 1) + word_prefix(s.subrange(j + 1, s.len() as int)),
{
    let t = s.subrange(j, s.len() as int);
    assert(t[0] == s[j]);
    assert(t.drop_first() =~= s.subrange(j + 1, s.len() as int));
    assert(s.subrange(start, j + 1) =~= s.subrange(start, j) + seq![s[j]]);
}

/// The first word of `s`.
fn first_word_of(s: &str) -> (r: String)
    ensures
        r@ == first_word(s@),
{
    let n = s.unicode_len();
    let mut i: usize = 0;
    assert(s@.subrange(0, n as int) =~= s@);
    while i < n && space(s.get_char(i))
        invariant
            n == s@.len(),
            i <= n,
            first_word(s@) == first_word(s@.subrange(i as int, n as int)),
        decreases n - i,
    {
        let ghost t = s@.subrange(i as int, n as int);
        assert(t[0] == s@[i as int]);
        assert(t.drop_first() =~= s@.subrange(i + 1, n as int));
        i = i + 1;
    }
    let start = i;
    proof {
        if start < n {
            let t = s@.subrange(start as int, n as int);
            assert(t[0] == s@[start as int]);
        }
        assert(s@.subrange(start as int, start as int) =~= Seq::<char>::empty());
    }
    let mut j: usize = start;
    while j < n && !space(s.get_char(j))
        invariant
            n == s@.len(),
            start <= j <= n,
            word_prefix(s@.subrange(start as int, n as int)) == s@.subrange(start as int, j as int) + word_prefix(
                s@.subrange(j as int, n as int),
            ),
        decreases n - j,
    {
        proof {
            lemma_word_prefix_step(s@, start as int, j as int);
        }
        j = j + 1;
    }
    proof {
        let t = s@.subrange(j as int, n as int);
        if j < n {
            assert(t[0] == s@[j as int]);
        }
        assert(word_prefix(t) =~= Seq::<char>::empty());
        assert(s@.subrange(start as int, j as int) + word_prefix(t) =~= s@.subrange(start as int, j as int));
    }
    s.substring_char(start, j).to_owned()
}

/// Whether `prefix` starts `s`.
fn starts_with(s: &str, prefix: &str) -> (r: bool)
    ensures
        r == prefix@.is_prefix_of(s@),
{
    let n = s.unicode_len();
    let m = prefix.unicode_len();
    if m > n {
        return false;
    }
    let mut i: usize = 0;
    while i < m
        invariant
            n == s@.len(),
            m == prefix@.len(),
            m <= n,
            i <= m,
            forall|k: int| 0 <= k < i ==> prefix@[k] == s@[k],
        decreases m - i,
    {
        if prefix.get_char(i) != s.get_char(i) {
            return false;
        }
        i = i + 1;
    }
    assert(prefix@ =~= s@.subrange(0, m as int));
    true
}

/// Whether the first word of `command` is one of the allowed commands.
pub fn is_command_allowed(policy: &SecurityPolicy, command: &str) -> (r: bool)
    ensures
        r == exists|k: int| 0 <= k < policy.allowed_commands@.len() && policy.allowed_commands@[k]@ == first_word(command@),
{
    let base = first_word_of(command);
    let mut k: usize = 0;
    while k < policy.allowed_commands.len()
        invariant
            k <= policy.allowed_commands@.len(),
            base@ == first_word(command@),
            forall|q: int| 0 <= q < k ==> policy.allowed_commands@[q]@ != first_word(command@),
        decreases policy.allowed_commands@.len() - k,
    {
        if policy.allowed_commands[k] == base {
            return true;
        }
        k = k + 1;
    }
    false
}

/// Whether `path` starts with one of the forbidden paths.
pub fn is_path_forbidden(policy: &SecurityPolicy, path: &str) -> (r: bool)
    ensures
        r == exists|k: int| 0 <= k < policy.forbidden_paths@.len() && policy.forbidden_paths@[k]@.is_prefix_of(path@),
{
    let mut k: usize = 0;
    while k < policy.forbidden_paths.len()
        invariant
            k <= policy.forbidden_paths@.len(),
            forall|q: int| 0 <= q < k ==> !policy.forbidden_paths@[q]@.is_prefix_of(path@),
        decreases policy.forbidden_paths@.len() - k,
    {
        if starts_with(path, policy.forbidden_paths[k].as_str()) {
            return true;
        }
        k = k + 1;
    }
    false
}

} // verus!
