//! Per-command exit outcomes and their aggregation.
//!
//! Each command ends in exactly one outcome: it failed to start, it exited
//! with a status code, or it was terminated without one.  The aggregate
//! verdict over a whole run is a single flag: did any command fail?  The
//! process exit code is zero exactly when no command did.

use vstd::prelude::*;
use vstd::string::StringExecFns;

use crate::render::decimal_int;
use crate::render::output_line;
use crate::render::status_marker;
use crate::render::build_line_head;

verus! {

/// How one command ended.
pub enum CommandOutcome {
    /// The program could not be started; the payload is the error detail.
    LaunchFailed(String),
    /// The child exited with this status code.
    Exited(i32),
    /// The child was terminated without an exit code (for example by a
    /// signal).
    TerminatedAbnormally,
}

/// The only successful outcome is a normal exit with status code zero.
pub open spec fn outcome_success(o: CommandOutcome) -> bool {
    match o {
        CommandOutcome::Exited(code) => code == 0,
        _ => false,
    }
}

/// Whether this outcome counts as a success.
pub fn is_success(o: &CommandOutcome) -> (r: bool)
    ensures
        r == outcome_success(*o),
{
    match o {
        CommandOutcome::Exited(code) => *code == 0,
        _ => false,
    }
}

/// The status text of a command whose program could not be started.
pub open spec fn launch_failure_text(detail: Seq<char>) -> Seq<char> {
    "failed to start: "@ + detail
}

/// The text of the status line printed when a command ends.
pub open spec fn outcome_text(o: CommandOutcome) -> Seq<char> {
    match o {
        CommandOutcome::LaunchFailed(detail) => launch_failure_text(detail@),
        CommandOutcome::Exited(code) => "exited with code "@ + decimal_int(code as int),
        CommandOutcome::TerminatedAbnormally => "terminated abnormally"@,
    }
}

/// Append the status text for `o` to `out`.
fn append_outcome_text(out: &mut String, o: &CommandOutcome)
    ensures
        final(out)@ == old(out)@ + outcome_text(*o),
{
    let ghost base = out@;
    match o {
        CommandOutcome::LaunchFailed(detail) => {
            out.append("failed to start: ");
            out.append(detail.as_str());
            proof {
                assert(out@ =~= base + outcome_text(*o));
            }
        },
        CommandOutcome::Exited(code) => {
            out.append("exited with code ");
            crate::render::append_decimal_i64(out, *code as i64);
            proof {
                assert(out@ =~= base + outcome_text(*o));
            }
        },
        CommandOutcome::TerminatedAbnormally => {
            out.append("terminated abnormally");
        },
    }
}

/// The status line for a command that ended with outcome `o`: padded label,
/// `  = ` marker, status text.
pub fn render_status_line(label: &str, width: usize, o: &CommandOutcome) -> (r: String)
    ensures
        r@ == output_line(label@, width as int, status_marker(), outcome_text(*o)),
{
    let mut out = build_line_head(label, width, "  = ");
    proof {
        reveal_strlit("  = ");
        assert("  = "@ =~= status_marker());
    }
    append_outcome_text(&mut out, o);
    proof {
        assert(out@ =~= output_line(label@, width as int, status_marker(), outcome_text(*o)));
    }
    out
}

/// Whether any outcome in the sequence is a failure.
pub open spec fn any_failure(os: Seq<CommandOutcome>) -> bool {
    exists|i: int| 0 <= i < os.len() && !outcome_success(os[i])
}

/// The process-wide result, true once any command has failed.
pub struct AggregateResult {
    pub any_failed: bool,
}

impl AggregateResult {
    /// Before any command has completed, nothing has failed.
    pub fn new() -> (r: AggregateResult)
        ensures
            !r.any_failed,
    {
        AggregateResult { any_failed: false }
    }

    /// Fold one command's outcome into the verdict.  A flag that is already
    /// set stays set, whatever the outcome.
    pub fn record(&mut self, o: &CommandOutcome)
        ensures
            final(self).any_failed == (old(self).any_failed || !outcome_success(*o)),
    {
        if !is_success(o) {
            self.any_failed = true;
        }
    }

    /// The process exit code: zero on an all-success run, one otherwise.
    pub fn exit_code(&self) -> (r: i32)
        ensures
            r == (if self.any_failed {
                1i32
            } else {
                0i32
            }),
    {
        if self.any_failed {
            1
        } else {
            0
        }
    }
}

/// Fold every outcome of a finished run into the aggregate verdict.
pub fn aggregate_outcomes(outcomes: &Vec<CommandOutcome>) -> (r: AggregateResult)
    ensures
        r.any_failed == any_failure(outcomes@),
{
    let ghost os = outcomes@;
    let mut agg = AggregateResult::new();
    let mut i: usize = 0;
    proof {
        assert(!any_failure(os.subrange(0, 0)));
    }
    while i < outcomes.len()
        invariant
            os == outcomes@,
            i <= outcomes.len(),
            agg.any_failed == any_failure(os.subrange(0, i as int)),
        decreases outcomes.len() - i,
    {
        let ghost prev = os.subrange(0, i as int);
        let ghost next = os.subrange(0, (i + 1) as int);
        agg.record(&outcomes[i]);
        proof {
            if agg.any_failed {
                if any_failure(prev) {
                    let w = choose|w: int| 0 <= w < prev.len() && !outcome_success(prev[w]);
                    assert(!outcome_success(next[w]));
                } else {
                    assert(!outcome_success(next[i as int]));
                }
            } else {
                assert forall|j: int| 0 <= j < next.len() implies outcome_success(next[j]) by {
                    if j < i {
                        assert(next[j] == prev[j]);
                        assert(!any_failure(prev));
                        assert(outcome_success(prev[j]));
                    }
                }
            }
        }
        i = i + 1;
    }
    proof {
        assert(os.subrange(0, outcomes.len() as int) =~= os);
    }
    agg
}

/// The aggregate verdict is clean exactly when every command both started
/// and exited successfully; the exit code is then zero.
pub proof fn lemma_exit_zero_iff_all_succeeded(os: Seq<CommandOutcome>)
    ensures
        !any_failure(os) <==> (forall|i: int| 0 <= i < os.len() ==> outcome_success(os[i])),
{
}

/// Failure is permanent: once some outcome has set the flag, no sequence of
/// later completions can clear it.
pub proof fn lemma_failure_is_permanent(os: Seq<CommandOutcome>, later: Seq<CommandOutcome>)
    requires
        any_failure(os),
    ensures
        any_failure(os + later),
{
    let w = choose|w: int| 0 <= w < os.len() && !outcome_success(os[w]);
    assert(!outcome_success((os + later)[w]));
}

/// A command that failed to start counts as a failure for the whole run.
pub proof fn lemma_launch_failure_counts(os: Seq<CommandOutcome>, i: int)
    requires
        0 <= i < os.len(),
        os[i] is LaunchFailed,
    ensures
        any_failure(os),
{
    assert(!outcome_success(os[i]));
}

/// The status line of a command that failed to start carries the phrase
/// `failed to start: ` right after its marker column.
pub proof fn lemma_launch_failure_line_text(label: Seq<char>, width: int, detail: Seq<char>)
    requires
        label.len() <= width,
    ensures
        ({
            let line = output_line(label, width, status_marker(), launch_failure_text(detail));
            line.subrange(width + 4, width + 4 + "failed to start: "@.len() as int)
                == "failed to start: "@
        }),
{
    let line = output_line(label, width, status_marker(), launch_failure_text(detail));
    assert(line.subrange(width + 4, width + 4 + "failed to start: "@.len() as int)
        =~= "failed to start: "@);
}

} // verus!
