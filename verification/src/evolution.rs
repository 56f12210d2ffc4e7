//! Evolution sessions: configuration, errors, and the texts a session writes and reads
//! (the prompt given to the agent and the journal entry recorded afterwards).
//!
//! Running the agent, the build checks, git and the files themselves are handled by the
//! program around this library.

use vstd::prelude::*;

use crate::commands::{trim_text, trimmed};
use crate::text::{decimal, push_decimal, push_str};

verus! {

/// Default system prompt for the coding agent (REPL and evolution sessions).
pub const SYSTEM_PROMPT: &'static str = "You are a model railway controller working in the user's terminal.\nYou have access to the filesystem and shell. You also have access to the model railway control system. \nBe direct and concise.\nWhen the user asks you to do something, do it — don't just explain how.\nUse tools proactively: read files to understand context, run commands to verify your work.\nAfter making changes, run tests or verify the result when appropriate. Then commit the code using git.";

/// Configuration for a single evolution run.
#[derive(Debug, Clone, PartialEq, Eq)]
pub struct EvolutionConfig {
    pub api_key: String,
    pub model: String,
    pub skill_dirs: Vec<String>,
}

/// Why an evolution run failed.
#[derive(Debug, Clone, PartialEq, Eq)]
pub enum EvolutionError {
    PreflightFailed(String),
    PostCheckFailed(String),
    Agent(String),
}

/// Message of an evolution error.
pub open spec fn evolution_error_text(e: EvolutionError) -> Seq<char> {
    match e {
        EvolutionError::PreflightFailed(m) => "pre-flight cargo build/test failed: "@ + m@,
        EvolutionError::PostCheckFailed(m) => "post-evolution cargo build/test failed; reverted src/ with: "@ + m@,
        EvolutionError::Agent(m) => "agent error: "@ + m@,
    }
}

impl EvolutionError {
    /// The error's message.
    pub fn to_string(&self) -> (s: String)
        ensures
            s@ == evolution_error_text(*self),
    {
        let mut s = String::new();
        match self {
            EvolutionError::PreflightFailed(m) => {
                push_str(&mut s, "pre-flight cargo build/test failed: ");
                push_str(&mut s, m.as_str());
            },
            EvolutionError::PostCheckFailed(m) => {
                push_str(&mut s, "post-evolution cargo build/test failed; reverted src/ with: ");
                push_str(&mut s, m.as_str());
            },
            EvolutionError::Agent(m) => {
                push_str(&mut s, "agent error: ");
                push_str(&mut s, m.as_str());
            },
        }
        assert(s@ =~= evolution_error_text(*self));
        s
    }
}

/// A text without trailing Unicode white space, as `str::trim_end` gives it.
pub uninterp spec fn trimmed_end(s: Seq<char>) -> Seq<char>;

/// A text without trailing white space (`str::trim_end`); the result is named
/// [`trimmed_end`].
#[verifier::external_body]
pub(crate) fn trim_end_text(s: &str) -> (r: String)
    ensures
        r@ == trimmed_end(s@),
{
    s.trim_end().to_string()
}

/// The journal after recording a session's transcript at its top: a heading, the trimmed
/// transcript (or a note that there was none), then the previous journal, ending with a
/// new line.
pub open spec fn journal_text(existing: Seq<char>, session: u32, transcript: Seq<char>) -> Seq<char> {
    let t = trimmed_end(transcript);
    let body = if t.len() == 0 {
        "_No assistant text captured for this session._\n\n"@
    } else {
        t + "\n\n"@
    };
    let out = "## Session "@ + decimal(session as nat) + " — Evolution transcript\n\n"@ + body + existing;
    if out.last() == '\n' {
        out
    } else {
        out + "\n"@
    }
}

/// The journal after recording a session's transcript at its top.
pub fn journal_with_transcript(existing: &str, session: u32, transcript: &str) -> (s: String)
    ensures
        s@ == journal_text(existing@, session, transcript@),
{
    let t = trim_end_text(transcript);
    let mut s = String::new();
    push_str(&mut s, "## Session ");
    push_decimal(&mut s, session as u64);
    push_str(&mut s, " — Evolution transcript\n\n");
    if t.as_str().unicode_len() == 0 {
        push_str(&mut s, "_No assistant text captured for this session._\n\n");
    } else {
        push_str(&mut s, t.as_str());
        push_str(&mut s, "\n\n");
    }
    push_str(&mut s, existing);
    let ghost out = s@;
    let n = s.as_str().unicode_len();
    proof {
        reveal_strlit(" — Evolution transcript\n\n");
    }
    assert(n > 0);
    if s.as_str().get_char(n - 1) != '\n' {
        push_str(&mut s, "\n");
    }
    assert(s@ =~= journal_text(existing@, session, transcript@));
    s
}

/// The prompt of evolution session `session` on `date`, with an excerpt of the journal and
/// today's issues.
pub open spec fn prompt_text(session: u32, date: Seq<char>, journal: Seq<char>, issues: Seq<char>) -> Seq<char> {
    "This is evolution session "@
        + decimal(session as nat)
        + " ("@
        + date
        + "). The operator triggered you (e.g. POST /evolve); you are not on a daily schedule.\n\nRead these files in this order:\n1. IDENTITY.md (who you are and your rules)\n2. src/ (your source code — this is YOU)\n3. ROADMAP.md (your evolution path)\n4. JOURNAL.md (your recent history — last 10 entries)\n5. ISSUES_TODAY.md (community requests)\n\n=== Recent journal (excerpt) ===\n"@
        + journal
        + "\n\n=== ISSUES_TODAY ===\n"@
        + issues
        + "\n\n=== PHASE 1: Self-Assessment ===\n\nRead your own source code carefully. Then try a small task to test\nyourself — for example, read a file, edit something, run a command.\nNote any friction, bugs, crashes, or missing capabilities.\n\n=== PHASE 2: Review Community Issues ===\n\nRead ISSUES_TODAY.md. These are real people asking you to improve.\nIssues with more 👍 reactions should be prioritized higher.\n\n=== PHASE 3: Decide ===\n\nMake as many improvements as you can this session. Prioritize:\n1. Self-discovered crash or data loss bug\n2. Community issue with most 👍 (if actionable this session)\n3. Self-discovered UX friction or missing error handling\n4. Planned roadmap item at your current level\n\n=== PHASE 4: Implement ===\n\nFor each improvement, follow the evolve skill rules:\n- Write a test first if possible\n- Use edit_file for surgical changes\n- Run cargo build && cargo test after changes\n- If build fails, try to fix it. If you can't, revert with: bash git checkout -- src/\n- After each successful change, commit: git add -A && git commit -m \"Session "@
        + decimal(session as nat)
        + ": <short description>\"\n- Then move on to the next improvement\n\n**IMPORTANT**: do NOT bump the version in Cargo.toml yourself. The evolution\nharness will bump the patch version, run clippy, build, test, commit, push,\nand request a restart automatically after your session completes.\n\n=== PHASE 5: Journal ===\n\nWrite this session's entry at the TOP of JOURNAL.md. Format:\n## Session "@
        + decimal(session as nat)
        + " — [title]\n[2-4 sentences: what you tried, what worked, what didn't, what's next]\n\n=== PHASE 6: Update Roadmap ===\n\nIf you completed a roadmap item, check it off in ROADMAP.md:\n- [x] Item description (session "@
        + decimal(session as nat)
        + ")\n\nIf you discovered a new issue, add it to the appropriate level.\n\n=== PHASE 7: Issue Response ===\n\nIf you worked on a community GitHub issue, write to ISSUE_RESPONSE.md:\nissue_number: [N]\nstatus: fixed|partial|wontfix\ncomment: [your 2-3 sentence response to the person]\n\nNow begin. Read IDENTITY.md first."@
}

/// The prompt of evolution session `session` on `date`.
pub fn evolution_prompt(session: u32, date: &str, journal: &str, issues: &str) -> (s: String)
    ensures
        s@ == prompt_text(session, date@, journal@, issues@),
{
    let mut s = String::new();
    push_str(&mut s, "This is evolution session ");
    push_decimal(&mut s, session as u64);
    push_str(&mut s, " (");
    push_str(&mut s, date);
    push_str(&mut s, "). The operator triggered you (e.g. POST /evolve); you are not on a daily schedule.\n\nRead these files in this order:\n1. IDENTITY.md (who you are and your rules)\n2. src/ (your source code — this is YOU)\n3. ROADMAP.md (your evolution path)\n4. JOURNAL.md (your recent history — last 10 entries)\n5. ISSUES_TODAY.md (community requests)\n\n=== Recent journal (excerpt) ===\n");
    push_str(&mut s, journal);
    push_str(&mut s, "\n\n=== ISSUES_TODAY ===\n");
    push_str(&mut s, issues);
    push_str(&mut s, "\n\n=== PHASE 1: Self-Assessment ===\n\nRead your own source code carefully. Then try a small task to test\nyourself — for example, read a file, edit something, run a command.\nNote any friction, bugs, crashes, or missing capabilities.\n\n=== PHASE 2: Review Community Issues ===\n\nRead ISSUES_TODAY.md. These are real people asking you to improve.\nIssues with more 👍 reactions should be prioritized higher.\n\n=== PHASE 3: Decide ===\n\nMake as many improvements as you can this session. Prioritize:\n1. Self-discovered crash or data loss bug\n2. Community issue with most 👍 (if actionable this session)\n3. Self-discovered UX friction or missing error handling\n4. Planned roadmap item at your current level\n\n=== PHASE 4: Implement ===\n\nFor each improvement, follow the evolve skill rules:\n- Write a test first if possible\n- Use edit_file for surgical changes\n- Run cargo build && cargo test after changes\n- If build fails, try to fix it. If you can't, revert with: bash git checkout -- src/\n- After each successful change, commit: git add -A && git commit -m \"Session ");
    push_decimal(&mut s, session as u64);
    push_str(&mut s, ": <short description>\"\n- Then move on to the next improvement\n\n**IMPORTANT**: do NOT bump the version in Cargo.toml yourself. The evolution\nharness will bump the patch version, run clippy, build, test, commit, push,\nand request a restart automatically after your session completes.\n\n=== PHASE 5: Journal ===\n\nWrite this session's entry at the TOP of JOURNAL.md. Format:\n## Session ");
    push_decimal(&mut s, session as u64);
    push_str(&mut s, " — [title]\n[2-4 sentences: what you tried, what worked, what didn't, what's next]\n\n=== PHASE 6: Update Roadmap ===\n\nIf you completed a roadmap item, check it off in ROADMAP.md:\n- [x] Item description (session ");
    push_decimal(&mut s, session as u64);
    push_str(&mut s, ")\n\nIf you discovered a new issue, add it to the appropriate level.\n\n=== PHASE 7: Issue Response ===\n\nIf you worked on a community GitHub issue, write to ISSUE_RESPONSE.md:\nissue_number: [N]\nstatus: fixed|partial|wontfix\ncomment: [your 2-3 sentence response to the person]\n\nNow begin. Read IDENTITY.md first.");
    assert(s@ =~= prompt_text(session, date@, journal@, issues@));
    s
}

/// How much of the journal the prompt quotes (characters).
pub const JOURNAL_EXCERPT_CHARS: usize = 2000;

/// The journal excerpt quoted in the prompt: its first characters, or a note when there is
/// no journal.
pub open spec fn journal_excerpt_text(journal: Option<Seq<char>>) -> Seq<char> {
    match journal {
        Some(j) => if j.len() <= JOURNAL_EXCERPT_CHARS {
            j
        } else {
            j.take(JOURNAL_EXCERPT_CHARS as int)
        },
        None => "No journal yet."@,
    }
}

/// The issues quoted in the prompt, or a note when there is no issues file.
pub open spec fn issues_text(issues: Option<Seq<char>>) -> Seq<char> {
    match issues {
        Some(i) => i,
        None => "No issues file (run gh fetch or create empty ISSUES_TODAY.md)."@,
    }
}

/// Text of an optional string.
pub open spec fn opt_text(o: Option<&str>) -> Option<Seq<char>> {
    match o {
        Some(s) => Some(s@),
        None => None,
    }
}

/// The prompt of evolution session `session` on `date`, from the journal and issues files'
/// contents when they could be read.
pub fn evolution_prompt_from(session: u32, date: &str, journal: Option<&str>, issues: Option<&str>) -> (s: String)
    ensures
        s@ == prompt_text(session, date@, journal_excerpt_text(opt_text(journal)), issues_text(opt_text(issues))),
{
    let excerpt = match journal {
        Some(j) => {
            let n = j.unicode_len();
            if n <= JOURNAL_EXCERPT_CHARS {
                String::from_str(j)
            } else {
                let part = j.substring_char(0, JOURNAL_EXCERPT_CHARS);
                assert(part@ =~= j@.take(JOURNAL_EXCERPT_CHARS as int));
                String::from_str(part)
            }
        },
        None => String::from_str("No journal yet."),
    };
    let issue_text = match issues {
        Some(i) => String::from_str(i),
        None => String::from_str("No issues file (run gh fetch or create empty ISSUES_TODAY.md)."),
    };
    evolution_prompt(session, date, excerpt.as_str(), issue_text.as_str())
}

/// The value of a string of decimal digits.
pub open spec fn decimal_value(s: Seq<char>) -> nat
    decreases s.len(),
{
    if s.len() == 0 {
        0
    } else {
        decimal_value(s.drop_last()) * 10 + ((s.last() as int) - ('0' as int)) as nat
    }
}

/// What `u32`'s `FromStr` reads from a text: an optional `+` followed by at least one ASCII
/// digit and nothing else, with a value that fits in a `u32`.
pub open spec fn u32_text_value(s: Seq<char>) -> Option<u32> {
    let digits = if s.len() > 0 && s[0] == '+' {
        s.drop_first()
    } else {
        s
    };
    if digits.len() > 0 && (forall|i: int| 0 <= i < digits.len() ==> '0' <= #[trigger] digits[i] <= '9')
        && decimal_value(digits) <= u32::MAX {
        Some(decimal_value(digits) as u32)
    } else {
        None
    }
}

/// Reads a `u32` with its `FromStr` (`str::parse::<u32>`).
#[verifier::external_body]
pub(crate) fn parse_u32_text(s: &str) -> (r: Option<u32>)
    ensures
        r == u32_text_value(s@),
{
    s.parse::<u32>().ok()
}

/// The session number recorded in the day-count file: its trimmed number, or 1 when there
/// is no file or no number in it.
pub fn day_count_from(text: Option<&str>) -> (n: u32)
    ensures
        n == match opt_text(text) {
            Some(t) => match u32_text_value(trimmed(t)) {
                Some(v) => v,
                None => 1,
            },
            None => 1,
        },
{
    match text {
        Some(t) => {
            let trimmed_text = trim_text(t);
            match parse_u32_text(trimmed_text.as_str()) {
                Some(v) => v,
                None => 1,
            }
        },
        None => 1,
    }
}

/// The message of an agent failure: the provider's message itself when it reports being
/// overloaded, else prefixed with `API error: `.
pub open spec fn agent_failure_text(msg: Seq<char>) -> Seq<char> {
    if msg == "Anthropic overloaded"@ {
        msg
    } else {
        "API error: "@ + msg
    }
}

/// The message of an agent failure (see [`agent_failure_text`]).
pub fn agent_failure_message(msg: &str) -> (s: String)
    ensures
        s@ == agent_failure_text(msg@),
{
    let m = String::from_str(msg);
    if m == String::from_str("Anthropic overloaded") {
        m
    } else {
        let mut s = String::new();
        push_str(&mut s, "API error: ");
        push_str(&mut s, msg);
        assert(s@ =~= agent_failure_text(msg@));
        s
    }
}


/// The pieces of the first `n` characters of `s` that end at a comma, and where the
/// current piece starts.
pub open spec fn comma_split_upto(s: Seq<char>, n: int) -> (Seq<Seq<char>>, int)
    decreases n,
{
    if n <= 0 {
        (Seq::empty(), 0)
    } else {
        let (ps, start) = comma_split_upto(s, n - 1);
        if s[n - 1] == ',' {
            (ps.push(s.subrange(start, n - 1)), n)
        } else {
            (ps, start)
        }
    }
}

/// The pieces of `s` between commas (`str::split(',')`).
pub open spec fn comma_split(s: Seq<char>) -> Seq<Seq<char>> {
    let (ps, start) = comma_split_upto(s, s.len() as int);
    ps.push(s.subrange(start, s.len() as int))
}

/// The trimmed pieces that are not empty, in order.
pub open spec fn kept_pieces(ps: Seq<Seq<char>>) -> Seq<Seq<char>>
    decreases ps.len(),
{
    if ps.len() == 0 {
        Seq::empty()
    } else {
        let t = trimmed(ps.last());
        kept_pieces(ps.drop_last()) + if t.len() == 0 {
            Seq::empty()
        } else {
            seq![t]
        }
    }
}

/// The skill directories a setting names: its comma-separated entries, trimmed, without
/// empty ones; `./skills` when there is no setting.
pub open spec fn skill_dirs_spec(setting: Option<Seq<char>>) -> Seq<Seq<char>> {
    match setting {
        Some(s) => kept_pieces(comma_split(s)),
        None => seq!["./skills"@],
    }
}

/// Values of a list of strings.
pub open spec fn strings_view(v: Seq<String>) -> Seq<Seq<char>> {
    v.map_values(|x: String| x@)
}

/// Appends a trimmed piece unless it is empty.
fn keep_piece(out: &mut Vec<String>, piece: &str)
    ensures
        strings_view(final(out)@) == strings_view(old(out)@) + if trimmed(piece@).len() == 0 {
            Seq::<Seq<char>>::empty()
        } else {
            seq![trimmed(piece@)]
        },
{
    let t = trim_text(piece);
    if t.as_str().unicode_len() != 0 {
        out.push(t);
    }
    assert(strings_view(out@) =~= strings_view(old(out)@) + if trimmed(piece@).len() == 0 {
        Seq::<Seq<char>>::empty()
    } else {
        seq![trimmed(piece@)]
    });
}

/// The skill directories a setting names (see [`skill_dirs_spec`]).
pub fn skill_dirs_from(setting: Option<&str>) -> (dirs: Vec<String>)
    ensures
        strings_view(dirs@) == skill_dirs_spec(opt_text(setting)),
{
    let s = match setting {
        Some(s) => s,
        None => {
            let mut d: Vec<String> = Vec::new();
            d.push(String::from_str("./skills"));
            assert(strings_view(d@) =~= seq!["./skills"@]);
            return d;
        },
    };
    let n = s.unicode_len();
    let mut out: Vec<String> = Vec::new();
    let mut start: usize = 0;
    let mut i: usize = 0;
    let ghost mut pieces: Seq<Seq<char>> = Seq::empty();
    while i < n
        invariant
            0 <= start <= i <= n,
            n == s@.len(),
            comma_split_upto(s@, i as int) == (pieces, start as int),
            strings_view(out@) == kept_pieces(pieces),
        decreases n - i,
    {
        if s.get_char(i) == ',' {
            let piece = s.substring_char(start, i);
            keep_piece(&mut out, piece);
            proof {
                let p = s@.subrange(start as int, i as int);
                assert(pieces.push(p).drop_last() =~= pieces);
                pieces = pieces.push(p);
            }
            start = i + 1;
        }
        i = i + 1;
    }
    let last = s.substring_char(start, n);
    keep_piece(&mut out, last);
    proof {
        let p = s@.subrange(start as int, n as int);
        assert(pieces.push(p).drop_last() =~= pieces);
    }
    out
}

/// The configuration of evolution runs from the settings: the API key (the first one
/// given), the model and the skill directories (see [`skill_dirs_spec`]). A missing key is
/// reported first, then a missing model.
pub fn config_from_settings(
    api_key: Option<&str>,
    fallback_api_key: Option<&str>,
    model: Option<&str>,
    skills: Option<&str>,
) -> (r: Result<EvolutionConfig, String>)
    ensures
        match r {
            Ok(c) => {
                &&& c.api_key@ == match opt_text(api_key) {
                    Some(k) => k,
                    None => opt_text(fallback_api_key)->Some_0,
                }
                &&& (api_key is Some || fallback_api_key is Some)
                &&& model matches Some(m) && c.model@ == m@
                &&& strings_view(c.skill_dirs@) == skill_dirs_spec(opt_text(skills))
            },
            Err(m) => if api_key is None && fallback_api_key is None {
                m@ == "ANTHROPIC_API_KEY or API_KEY must be set"@
            } else {
                model is None && m@ == "MODEL must be set"@
            },
        },
{
    let key = match api_key {
        Some(k) => String::from_str(k),
        None => match fallback_api_key {
            Some(k) => String::from_str(k),
            None => {
                return Err(String::from_str("ANTHROPIC_API_KEY or API_KEY must be set"));
            },
        },
    };
    let model_name = match model {
        Some(m) => String::from_str(m),
        None => {
            return Err(String::from_str("MODEL must be set"));
        },
    };
    let skill_dirs = skill_dirs_from(skills);
    Ok(EvolutionConfig { api_key: key, model: model_name, skill_dirs })
}

} // verus!
