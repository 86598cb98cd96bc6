//! `bsk snapshot`: the aria-tree snapshot of the Agent Window's active
//! tab. The text format is human-readable, with `@eN` refs that the agent
//! feeds back into `bsk click`, `bsk fill`, and so on. This module holds
//! what the command decides: the request it sends and the lines it prints
//! for a reply; the caller performs the daemon call and the printing.
use vstd::prelude::*;

use crate::addr::string_of;
use crate::text::{decimal_text, push_decimal, signed_decimal_text};

verus! {

/// How a command prints its result.
#[derive(Clone, Copy, Debug, PartialEq, Eq, Structural)]
pub enum Format {
    Json,
    Human,
}

/// The command's arguments.
#[derive(Debug)]
pub struct SnapshotArgs {
    /// Session id (must be active).
    pub session: String,
    /// Target tab. Defaults to the Agent Window's active tab.
    pub tab_id: Option<i64>,
    /// Cap on aria-tree depth before truncating.
    pub max_depth: Option<u32>,
    /// Soft cap on rendered tokens (~4 chars/token).
    pub max_tokens: Option<u32>,
}

/// The parameters of the snapshot request sent to the daemon.
#[derive(Debug)]
pub struct SnapshotParams {
    pub session_id: String,
    pub tab_id: Option<i64>,
    pub max_depth: Option<u32>,
    pub max_tokens: Option<u32>,
}

/// The parts of the daemon's snapshot reply that the human format reads.
#[derive(Debug)]
pub struct SnapshotReply {
    pub text: String,
    pub truncated: bool,
    pub ref_count: u64,
    pub tab_id: i64,
}

/// Lines for standard output and standard error, in order.
#[derive(Debug)]
pub struct HumanOutput {
    pub stdout: Vec<String>,
    pub stderr: Vec<String>,
}

/// The request for the given arguments: the same session, tab and caps.
pub fn snapshot_params(args: &SnapshotArgs) -> (p: SnapshotParams)
    ensures
        p.session_id@ == args.session@,
        p.tab_id == args.tab_id,
        p.max_depth == args.max_depth,
        p.max_tokens == args.max_tokens,
{
    SnapshotParams {
        session_id: args.session.clone(),
        tab_id: args.tab_id,
        max_depth: args.max_depth,
        max_tokens: args.max_tokens,
    }
}

/// The line printed in place of an empty snapshot.
pub open spec fn empty_note() -> Seq<char> {
    "(empty snapshot \u{2014} page may still be loading)"@
}

/// The warning printed for a truncated snapshot.
pub open spec fn truncation_warning(ref_count: u64, tab_id: i64) -> Seq<char> {
    "warning: snapshot truncated (refs="@ + decimal_text(ref_count as nat) + ", tab="@
        + signed_decimal_text(tab_id as int)
        + "). Increase --max-depth / --max-tokens if needed."@
}

/// Appends the base-ten text of a signed integer.
fn push_signed_decimal(out: &mut Vec<char>, n: i64)
    ensures
        final(out)@ == old(out)@ + signed_decimal_text(n as int),
{
    if n < 0 {
        out.push('-');
        let m = (0i128 - n as i128) as u64;
        push_decimal(out, m);
        assert(final(out)@ =~= old(out)@ + signed_decimal_text(n as int));
    } else {
        push_decimal(out, n as u64);
    }
}

/// The characters of a string slice, appended.
fn push_str(out: &mut Vec<char>, s: &str)
    ensures
        final(out)@ == old(out)@ + s@,
{
    let cs = crate::text::chars_of(s);
    let mut k: usize = 0;
    while k < cs.len()
        invariant
            k <= cs@.len(),
            cs@ == s@,
            out@ == old(out)@ + cs@.take(k as int),
        decreases cs@.len() - k,
    {
        out.push(cs[k]);
        assert(cs@.take(k + 1) =~= cs@.take(k as int).push(cs@[k as int]));
        k = k + 1;
    }
    assert(cs@.take(cs@.len() as int) =~= cs@);
}

/// What the human format prints for a reply: the snapshot text on
/// standard output (a note when it is empty), and a warning on standard
/// error when the snapshot was truncated.
pub fn render_human(reply: &SnapshotReply) -> (r: HumanOutput)
    ensures
        r.stdout@.len() == 1,
        r.stdout@[0]@ == if reply.text@.len() == 0 {
            empty_note()
        } else {
            reply.text@
        },
        r.stderr@.len() == if reply.truncated {
            1int
        } else {
            0int
        },
        reply.truncated ==> r.stderr@[0]@ == truncation_warning(reply.ref_count, reply.tab_id),
{
    let mut stdout: Vec<String> = Vec::new();
    if reply.text.as_str().is_empty() {
        stdout.push(String::from_str("(empty snapshot \u{2014} page may still be loading)"));
    } else {
        stdout.push(reply.text.clone());
    }
    let mut stderr: Vec<String> = Vec::new();
    if reply.truncated {
        let mut w: Vec<char> = Vec::new();
        push_str(&mut w, "warning: snapshot truncated (refs=");
        push_decimal(&mut w, reply.ref_count);
        push_str(&mut w, ", tab=");
        push_signed_decimal(&mut w, reply.tab_id);
        push_str(&mut w, "). Increase --max-depth / --max-tokens if needed.");
        stderr.push(string_of(&w));
    }
    HumanOutput { stdout, stderr }
}

} // verus!
