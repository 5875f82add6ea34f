//! Decisions of the aspect orchestrator: which configured aspects run which
//! commands, and how a command's result becomes a finding or an advisory.
//! Running the commands and probing for devices is left to the caller.
use crate::config::{
    advisories, aspect_name, copy_aspect_config, severity_name, Advisory, AdvisoryView, AspectConfig,
    AspectMap, QualityAspect, Severity,
};
use crate::rules::layers::{char_is, pieces, split_at_char};
use crate::rules::{findings, FindingView, Violation};
use crate::sorting::{insert_sorted, lemma_insert_at_first_greater, sorted_by};
use crate::text::{
    chars_are, chars_less, chars_of, contains_seq, contains_str, decimal, decimal_chars,
    ends_with_seq, lex_less, lower, push_all, push_str, string_of, to_lower, trim, trim_bounds,
};
use vstd::prelude::*;
use vstd::utf8::*;

verus! {

/// Seconds a command may run when its aspect sets no timeout.
pub const DEFAULT_TIMEOUT_SECS: u64 = 60;

/// Most bytes kept of a command's standard output or standard error.
pub const MAX_OUTPUT_BYTES: usize = 65536;

/// What a command printed and how it ended.
#[derive(Debug, Clone, PartialEq, Eq)]
pub struct CommandOutput {
    pub stdout: String,
    pub stderr: String,
    pub exit_code: i32,
    pub timed_out: bool,
}

/// The text that closes a truncated output.
pub open spec fn truncation_marker() -> Seq<u8> {
    encode_utf8("\n...[output truncated]"@)
}

/// The text that reports a timeout.
pub open spec fn timeout_marker() -> Seq<char> {
    "command timed out"@
}

/// `a - b`, or zero.
pub open spec fn saturating_sub(a: int, b: int) -> int {
    if a > b {
        a - b
    } else {
        0
    }
}

/// How many bytes of a chunk of `chunk_len` bytes an output holding
/// `held` bytes keeps: as many as fit below the limit that leaves room for
/// the truncation marker.
pub open spec fn kept_bytes(held: int, chunk_len: int) -> int {
    let room = saturating_sub(saturating_sub(MAX_OUTPUT_BYTES as int, truncation_marker().len() as int), held);
    if room < chunk_len {
        room
    } else {
        chunk_len
    }
}

/// Appends to `output` as much of `chunk` as the bound keeps; returns
/// whether some of it was dropped.
pub fn keep_chunk(output: &mut Vec<u8>, chunk: &[u8]) -> (truncated: bool)
    ensures
        final(output)@ == old(output)@ + chunk@.subrange(0, kept_bytes(old(output)@.len() as int, chunk@.len() as int)),
        truncated == (kept_bytes(old(output)@.len() as int, chunk@.len() as int) < chunk@.len()),
{
    let marker = "\n...[output truncated]".as_bytes();
    let limit = MAX_OUTPUT_BYTES.saturating_sub(marker.len());
    let room = limit.saturating_sub(output.len());
    let kept = if room < chunk.len() {
        room
    } else {
        chunk.len()
    };
    let mut i: usize = 0;
    while i < kept
        invariant
            0 <= i <= kept <= chunk@.len(),
            output@ == old(output)@ + chunk@.subrange(0, i as int),
        decreases kept - i,
    {
        output.push(chunk[i]);
        assert(chunk@.subrange(0, i + 1) =~= chunk@.subrange(0, i as int).push(chunk@[i as int]));
        i = i + 1;
    }
    kept < chunk.len()
}

/// Captured output stays bounded: while an output holds no more than the
/// limit below the truncation marker, keeping a chunk leaves it within that
/// limit, so with the marker it never exceeds [`MAX_OUTPUT_BYTES`]; and a
/// chunk that fits is kept whole.
pub proof fn lemma_output_is_bounded(held: int, chunk_len: int)
    requires
        0 <= held <= saturating_sub(MAX_OUTPUT_BYTES as int, truncation_marker().len() as int),
        0 <= chunk_len,
    ensures
        0 <= kept_bytes(held, chunk_len) <= chunk_len,
        held + kept_bytes(held, chunk_len) <= saturating_sub(MAX_OUTPUT_BYTES as int, truncation_marker().len() as int),
        truncation_marker().len() <= MAX_OUTPUT_BYTES ==> held + kept_bytes(held, chunk_len) + truncation_marker().len()
            <= MAX_OUTPUT_BYTES,
        held + chunk_len <= saturating_sub(MAX_OUTPUT_BYTES as int, truncation_marker().len() as int) ==> kept_bytes(
            held,
            chunk_len,
        ) == chunk_len,
{
}

/// What a runner waiting for a command does next.
#[derive(Debug, Clone, Copy, PartialEq, Eq)]
pub enum WaitAction {
    /// The command has exited: collect its results.
    Finish,
    /// The time is up: kill the command and everything it started.
    Kill,
    /// Wait a little and look again.
    Wait,
}

/// The next step of waiting for a command that may have exited, after
/// `elapsed_nanos` nanoseconds of a timeout of `timeout_secs` seconds: a
/// command that exited is finished; one still running is killed once the
/// elapsed time reaches the timeout, and waited for before.
pub open spec fn wait_action_of(exited: bool, elapsed_nanos: u128, timeout_secs: u64) -> WaitAction {
    if exited {
        WaitAction::Finish
    } else if elapsed_nanos >= timeout_secs * 1_000_000_000 {
        WaitAction::Kill
    } else {
        WaitAction::Wait
    }
}

/// The next step of waiting for a command.
pub fn next_wait_action(exited: bool, elapsed_nanos: u128, timeout_secs: u64) -> (r: WaitAction)
    ensures
        r == wait_action_of(exited, elapsed_nanos, timeout_secs),
{
    if exited {
        WaitAction::Finish
    } else if elapsed_nanos >= (timeout_secs as u128) * 1_000_000_000 {
        WaitAction::Kill
    } else {
        WaitAction::Wait
    }
}

/// Closes a captured output: a truncated one gets the truncation marker.
pub fn close_output(output: &mut Vec<u8>, truncated: bool)
    ensures
        final(output)@ == if truncated {
            old(output)@ + truncation_marker()
        } else {
            old(output)@
        },
{
    if truncated {
        let marker = "\n...[output truncated]".as_bytes();
        let mut i: usize = 0;
        while i < marker.len()
            invariant
                marker@ == truncation_marker(),
                0 <= i <= marker@.len(),
                output@ == old(output)@ + marker@.subrange(0, i as int),
            decreases marker@.len() - i,
        {
            output.push(marker[i]);
            assert(marker@.subrange(0, i + 1) =~= marker@.subrange(0, i as int).push(marker@[i as int]));
            i = i + 1;
        }
        assert(marker@.subrange(0, marker@.len() as int) =~= marker@);
    }
}

/// Whether `bytes` ends with `suffix`.
pub open spec fn ends_with_bytes(bytes: Seq<u8>, suffix: Seq<u8>) -> bool {
    suffix.len() <= bytes.len() && bytes.subrange(bytes.len() - suffix.len(), bytes.len() as int) == suffix
}

/// Marks a timed-out command's standard error: unless it already ends with
/// the timeout text, the text is appended on a line of its own.
pub fn mark_timeout(stderr: &mut Vec<u8>)
    ensures
        final(stderr)@ == if ends_with_bytes(old(stderr)@, encode_utf8(timeout_marker())) {
            old(stderr)@
        } else if old(stderr)@.len() == 0 {
            encode_utf8(timeout_marker())
        } else {
            old(stderr)@.push(10u8) + encode_utf8(timeout_marker())
        },
{
    let marker = "command timed out".as_bytes();
    let n = stderr.len();
    let m = marker.len();
    let mut ends = m <= n;
    let mut i: usize = 0;
    while ends && i < m
        invariant
            marker@ == encode_utf8(timeout_marker()),
            m == marker@.len(),
            n == stderr@.len(),
            stderr@ == old(stderr)@,
            ends ==> m <= n,
            0 <= i <= m,
            ends ==> forall|j: int| 0 <= j < i ==> stderr@[n - m + j] == marker@[j],
            !ends ==> !ends_with_bytes(old(stderr)@, marker@),
        decreases m - i + (if ends { 1int } else { 0int }),
    {
        if stderr[n - m + i] != marker[i] {
            proof {
                assert(old(stderr)@.subrange(n - m, n as int)[i as int] != marker@[i as int]);
            }
            ends = false;
        } else {
            i = i + 1;
        }
    }
    if ends {
        assert(old(stderr)@.subrange(n - m, n as int) =~= marker@);
        return;
    }
    if n > 0 {
        stderr.push(10u8);
    }
    let ghost mid = stderr@;
    let mut k: usize = 0;
    while k < m
        invariant
            marker@ == encode_utf8(timeout_marker()),
            m == marker@.len(),
            0 <= k <= m,
            stderr@ == mid + marker@.subrange(0, k as int),
        decreases m - k,
    {
        stderr.push(marker[k]);
        assert(marker@.subrange(0, k + 1) =~= marker@.subrange(0, k as int).push(marker@[k as int]));
        k = k + 1;
    }
    assert(marker@.subrange(0, m as int) =~= marker@);
}

/// `x` in decimal, with a leading `-` when negative.
pub open spec fn signed_decimal(x: int) -> Seq<char> {
    if x < 0 {
        "-"@ + decimal((-x) as nat)
    } else {
        decimal(x as nat)
    }
}

/// Standard output, then standard error on a line of its own.
pub open spec fn joined_output(o: CommandOutput) -> Seq<char> {
    if o.stderr@.len() == 0 {
        o.stdout@
    } else if o.stdout@.len() == 0 {
        o.stderr@
    } else {
        o.stdout@ + "\n"@ + o.stderr@
    }
}

/// The details reported for a failed command: its output, with the timeout
/// text added to a timed-out one that lacks it, or the exit code when it
/// printed nothing; trimmed.
pub open spec fn output_details(o: CommandOutput) -> Seq<char> {
    let d = joined_output(o);
    trim(
        if o.timed_out && !ends_with_seq(d, timeout_marker()) {
            (if d.len() == 0 {
                d
            } else {
                d + "\n"@
            }) + timeout_marker()
        } else if d.len() == 0 {
            "command exited with code "@ + signed_decimal(o.exit_code as int)
        } else {
            d
        },
    )
}

/// The details reported for a failed command.
pub fn format_output(output: &CommandOutput) -> (r: String)
    ensures
        r@ == output_details(*output),
{
    let mut details = chars_of(output.stdout.as_str());
    let err = chars_of(output.stderr.as_str());
    if err.len() > 0 {
        if details.len() > 0 {
            push_str(&mut details, "\n");
        }
        push_all(&mut details, err.as_slice());
    }
    assert(details@ == joined_output(*output));
    let ends = crate::text::ends_with_str(details.as_slice(), "command timed out");
    if output.timed_out && !ends {
        if details.len() > 0 {
            push_str(&mut details, "\n");
        }
        push_str(&mut details, "command timed out");
    } else if details.len() == 0 {
        push_str(&mut details, "command exited with code ");
        if output.exit_code < 0 {
            push_str(&mut details, "-");
            let magnitude: i64 = -(output.exit_code as i64);
            push_all(&mut details, decimal_chars(magnitude as usize).as_slice());
        } else {
            push_all(&mut details, decimal_chars(output.exit_code as usize).as_slice());
        }
    }
    proof {
        let d = joined_output(*output);
        let inner = if output.timed_out && !ends_with_seq(d, timeout_marker()) {
            (if d.len() == 0 {
                d
            } else {
                d + "\n"@
            }) + timeout_marker()
        } else if d.len() == 0 {
            "command exited with code "@ + signed_decimal(output.exit_code as int)
        } else {
            d
        };
        assert(details@ == inner);
    }
    let bounds: (usize, usize) = trim_bounds(details.as_slice());
    let trimmed = crate::syntax::slice_of(&details, bounds.0, bounds.1);
    string_of(trimmed)
}

/// Markers of a failure caused by a missing device.
pub open spec fn device_markers() -> Seq<Seq<char>> {
    seq![
        "no devices"@,
        "no connected device"@,
        "device not found"@,
        "no such device"@,
        "unable to locate a device"@,
        "waiting for device"@,
        "emulator not found"@,
    ]
}

/// The details, in ASCII lower case, hold a marker of a missing device.
pub open spec fn device_unavailable(details: Seq<char>) -> bool {
    exists|k: int| 0 <= k < device_markers().len() && contains_seq(lower(details), #[trigger] device_markers()[k])
}

/// Whether a failure's details say that no device was available.
pub fn is_device_unavailable_failure(details: &str) -> (r: bool)
    ensures
        r == device_unavailable(details@),
{
    let d = chars_of(details);
    let l = to_lower(d.as_slice());
    let s = l.as_slice();
    let r = contains_str(s, "no devices") || contains_str(s, "no connected device") || contains_str(s, "device not found")
        || contains_str(s, "no such device") || contains_str(s, "unable to locate a device")
        || contains_str(s, "waiting for device") || contains_str(s, "emulator not found");
    proof {
        let m = device_markers();
        if r {
            if contains_seq(lower(details@), "no devices"@) {
                assert(m[0] == "no devices"@);
            } else if contains_seq(lower(details@), "no connected device"@) {
                assert(m[1] == "no connected device"@);
            } else if contains_seq(lower(details@), "device not found"@) {
                assert(m[2] == "device not found"@);
            } else if contains_seq(lower(details@), "no such device"@) {
                assert(m[3] == "no such device"@);
            } else if contains_seq(lower(details@), "unable to locate a device"@) {
                assert(m[4] == "unable to locate a device"@);
            } else if contains_seq(lower(details@), "waiting for device"@) {
                assert(m[5] == "waiting for device"@);
            } else {
                assert(m[6] == "emulator not found"@);
            }
        } else {
            assert forall|k: int| 0 <= k < m.len() implies !contains_seq(lower(details@), #[trigger] m[k]) by {
                if k == 0 {} else if k == 1 {} else if k == 2 {} else if k == 3 {} else if k == 4 {} else if k == 5 {} else {}
            }
        }
    }
    r
}

/// `line` without its trailing carriage returns.
pub open spec fn strip_cr(line: Seq<char>) -> Seq<char>
    decreases line.len(),
{
    if line.len() > 0 && line.last() == '\r' {
        strip_cr(line.drop_last())
    } else {
        line
    }
}

/// Some line of `adb devices` output has `device` as its second
/// tab-separated field.
pub open spec fn adb_lists_device(output: Seq<char>) -> bool {
    exists|k: int|
        0 <= k < pieces(output, char_is('\n')).len() && {
            let fields = pieces(strip_cr(#[trigger] pieces(output, char_is('\n'))[k]), char_is('\t'));
            fields.len() >= 2 && fields[1] == "device"@
        }
}

/// Whether `adb devices` output lists a connected device.
pub fn adb_output_has_connected_device(output: &str) -> (r: bool)
    ensures
        r == adb_lists_device(output@),
{
    let text = chars_of(output);
    let lines = split_at_char(text.as_slice(), '\n');
    let ghost ls = pieces(output@, char_is('\n'));
    let mut k: usize = 0;
    while k < lines.len()
        invariant
            lines@.map_values(|v: Vec<char>| v@) == ls,
            ls == pieces(output@, char_is('\n')),
            0 <= k <= lines@.len(),
            forall|j: int| 0 <= j < k ==> {
                let fields = pieces(strip_cr(#[trigger] ls[j]), char_is('\t'));
                !(fields.len() >= 2 && fields[1] == "device"@)
            },
        decreases lines@.len() - k,
    {
        let line = lines[k].as_slice();
        let mut end: usize = line.len();
        assert(line@.subrange(0, line@.len() as int) =~= line@);
        while end > 0 && line[end - 1] == '\r'
            invariant
                0 <= end <= line@.len(),
                strip_cr(line@.subrange(0, end as int)) == strip_cr(line@),
            decreases end,
        {
            assert(line@.subrange(0, end - 1) =~= line@.subrange(0, end as int).drop_last());
            end = end - 1;
        }
        proof {
            assert(line@.subrange(0, line@.len() as int) =~= line@);
        }
        let stripped = crate::syntax::slice_of_slice(line, 0, end);
        proof {
            assert(strip_cr(stripped@) == stripped@);
            assert(stripped@ == strip_cr(ls[k as int]));
        }
        let fields = split_at_char(stripped, '\t');
        proof {
            assert(fields@.map_values(|v: Vec<char>| v@) == pieces(stripped@, char_is('\t')));
        }
        if fields.len() >= 2 && chars_are(fields[1].as_slice(), "device") {
            proof {
                assert(fields@[1]@ == pieces(stripped@, char_is('\t'))[1]);
            }
            return true;
        }
        proof {
            if fields@.len() >= 2 {
                assert(fields@[1]@ == pieces(stripped@, char_is('\t'))[1]);
            }
        }
        k = k + 1;
    }
    false
}

/// Entries ordered by aspect name.
pub open spec fn by_aspect_name() -> spec_fn((QualityAspect, AspectConfig), (QualityAspect, AspectConfig)) -> bool {
    |a: (QualityAspect, AspectConfig), b: (QualityAspect, AspectConfig)| lex_less(aspect_name(a.0), aspect_name(b.0))
}

/// The configured aspects in order of their names.
pub open spec fn aspect_order(m: AspectMap) -> Seq<(QualityAspect, AspectConfig)> {
    sorted_by(m.entries@, by_aspect_name())
}

/// An aspect switched off or ignored.
pub open spec fn skipped(c: AspectConfig) -> bool {
    c.enabled == Some(false) || c.severity == Some(Severity::Ignore)
}

/// The aspect's command, unless it is absent or blank.
pub open spec fn command_of(c: AspectConfig) -> Option<Seq<char>> {
    match c.command {
        Some(s) => if trim(s@).len() > 0 {
            Some(s@)
        } else {
            None
        },
        None => None,
    }
}

/// The aspect's timeout in seconds.
pub open spec fn timeout_of(c: AspectConfig) -> u64 {
    match c.timeout_secs {
        Some(t) => t,
        None => DEFAULT_TIMEOUT_SECS,
    }
}

/// The aspect runs a command.
pub open spec fn runs(c: AspectConfig) -> bool {
    !skipped(c) && command_of(c) is Some
}

/// The number of commands run for the first `n` entries of `order`.
pub open spec fn run_count(order: Seq<(QualityAspect, AspectConfig)>, n: int) -> nat
    decreases n,
{
    if n <= 0 {
        0
    } else {
        run_count(order, n - 1) + if runs(order[n - 1].1) { 1nat } else { 0nat }
    }
}

/// The commands run for the first `n` entries of `order`, in order.
pub open spec fn planned_commands(order: Seq<(QualityAspect, AspectConfig)>, n: int) -> Seq<(QualityAspect, Seq<char>, u64)>
    decreases n,
{
    if n <= 0 {
        Seq::empty()
    } else if runs(order[n - 1].1) {
        planned_commands(order, n - 1).push((order[n - 1].0, command_of(order[n - 1].1)->0, timeout_of(order[n - 1].1)))
    } else {
        planned_commands(order, n - 1)
    }
}

/// A command to run for an aspect.
pub struct PlannedCommand {
    pub aspect: QualityAspect,
    pub command: String,
    pub timeout_secs: u64,
}

/// The ghost forms of `v`.
pub open spec fn planned_views(v: Seq<PlannedCommand>) -> Seq<(QualityAspect, Seq<char>, u64)> {
    v.map_values(|p: PlannedCommand| (p.aspect, p.command@, p.timeout_secs))
}

/// A command failed: it timed out or exited with a non-zero code.
pub open spec fn failed(o: CommandOutput) -> bool {
    o.timed_out || o.exit_code != 0
}

/// The advisory for an aspect without a command.
pub open spec fn missing_command_advisory(a: QualityAspect) -> AdvisoryView {
    (
        a,
        "No command is configured for the "@ + aspect_name(a) + " quality aspect."@,
        "Configure a command for "@ + aspect_name(a) + " in qgate.toml or install its tooling."@,
        "aspect:"@ + aspect_name(a) + ":missing-command"@,
    )
}

/// What a failed command of aspect `a` yields: an advisory when its
/// severity is `advisory`, or when an integration test without a set
/// severity failed for want of a device; a finding otherwise.
pub open spec fn failure_outcome(a: QualityAspect, c: AspectConfig, o: CommandOutput, device: Option<bool>) -> (Seq<FindingView>, Seq<AdvisoryView>) {
    let details = output_details(o);
    let severity = match c.severity {
        Some(s) => s,
        None => Severity::Error,
    };
    let no_device = a == QualityAspect::IntegrationTest && device == Some(false) && device_unavailable(details);
    let message = "Quality aspect "@ + aspect_name(a) + " failed: "@ + details;
    if severity == Severity::Advisory || (a == QualityAspect::IntegrationTest && no_device && c.severity is None) {
        (Seq::empty(), seq![(a, message, "Fix the reported quality check failure."@, "aspect:"@ + aspect_name(a))])
    } else {
        (
            seq![("."@, 0usize, "aspect:"@ + aspect_name(a), message, severity_name(severity), "aspect:"@ + aspect_name(a))],
            Seq::empty(),
        )
    }
}

/// The findings and advisories of the first `n` entries of `order`, given
/// the outputs of their commands in run order.
pub open spec fn aspect_results(
    order: Seq<(QualityAspect, AspectConfig)>,
    outputs: Seq<CommandOutput>,
    device: Option<bool>,
    n: int,
) -> (Seq<FindingView>, Seq<AdvisoryView>)
    decreases n,
{
    if n <= 0 {
        (Seq::empty(), Seq::empty())
    } else {
        let prev = aspect_results(order, outputs, device, n - 1);
        let a = order[n - 1].0;
        let c = order[n - 1].1;
        if skipped(c) {
            prev
        } else {
            match command_of(c) {
                None => (prev.0, prev.1.push(missing_command_advisory(a))),
                Some(_) => {
                    let o = outputs[run_count(order, n - 1) as int];
                    if failed(o) {
                        let f = failure_outcome(a, c, o, device);
                        (prev.0 + f.0, prev.1 + f.1)
                    } else {
                        prev
                    }
                },
            }
        }
    }
}

/// Decides which configured aspects run which commands and what their
/// results mean.
#[derive(Debug, Default)]
pub struct Orchestrator;

impl Orchestrator {
    /// The orchestrator.
    pub fn new() -> (r: Self) {
        Orchestrator
    }

    /// The configured aspects in order of their names.
    fn ordered(aspects: &AspectMap) -> (r: Vec<(QualityAspect, AspectConfig)>)
        ensures
            r@ == aspect_order(*aspects),
    {
        let ghost all = aspects.entries@;
        let mut out: Vec<(QualityAspect, AspectConfig)> = Vec::new();
        let mut k: usize = 0;
        while k < aspects.entries.len()
            invariant
                all == aspects.entries@,
                0 <= k <= all.len(),
                out@ == sorted_by(all.take(k as int), by_aspect_name()),
            decreases all.len() - k,
        {
            let entry = &aspects.entries[k];
            let x = (entry.0, copy_aspect_config(&entry.1));
            proof {
                assert(x == all[k as int]);
            }
            let name = chars_of(x.0.name());
            let mut p: usize = 0;
            while p < out.len() && !chars_less(name.as_slice(), chars_of(out[p].0.name()).as_slice())
                invariant
                    0 <= p <= out@.len(),
                    name@ == aspect_name(x.0),
                    forall|q: int| 0 <= q < p ==> !(by_aspect_name())(x, #[trigger] out@[q]),
                decreases out@.len() - p,
            {
                p = p + 1;
            }
            proof {
                lemma_insert_at_first_greater(out@, x, by_aspect_name(), p as int);
                assert(all.take(k + 1).drop_last() =~= all.take(k as int));
                assert(all.take(k + 1).last() == x);
            }
            let ghost before = out@;
            out.insert(p, x);
            proof {
                assert(out@ =~= before.subrange(0, p as int) + seq![x] + before.subrange(p as int, before.len() as int));
            }
            k = k + 1;
        }
        proof {
            assert(all.take(all.len() as int) =~= all);
        }
        out
    }

    /// Whether an aspect's command is present and not blank.
    fn usable_command(c: &AspectConfig) -> (r: Option<&String>)
        ensures
            match r {
                Some(s) => command_of(*c) == Some(s@),
                None => command_of(*c) is None,
            },
    {
        match &c.command {
            Some(s) => {
                let chars = chars_of(s.as_str());
                let bounds: (usize, usize) = trim_bounds(chars.as_slice());
                if bounds.0 < bounds.1 {
                    Some(s)
                } else {
                    None
                }
            },
            None => None,
        }
    }

    /// The commands to run, in order of aspect name: one per enabled,
    /// not ignored aspect with a command.
    pub fn plan(&self, aspects: &AspectMap) -> (r: Vec<PlannedCommand>)
        requires
            aspects.wf(),
        ensures
            planned_views(r@) == planned_commands(aspect_order(*aspects), aspect_order(*aspects).len() as int),
    {
        let order = Self::ordered(aspects);
        let mut out: Vec<PlannedCommand> = Vec::new();
        let mut k: usize = 0;
        while k < order.len()
            invariant
                0 <= k <= order@.len(),
                planned_views(out@) == planned_commands(order@, k as int),
            decreases order@.len() - k,
        {
            let entry = &order[k];
            let ghost before = planned_views(out@);
            let skip = entry.1.enabled == Some(false) || entry.1.severity == Some(Severity::Ignore);
            if !skip {
                if let Some(command) = Self::usable_command(&entry.1) {
                    let timeout = match entry.1.timeout_secs {
                        Some(t) => t,
                        None => DEFAULT_TIMEOUT_SECS,
                    };
                    let p = PlannedCommand { aspect: entry.0, command: command.clone(), timeout_secs: timeout };
                    out.push(p);
                    proof {
                        assert(planned_views(out@) =~= before.push((p.aspect, p.command@, p.timeout_secs)));
                    }
                }
            }
            k = k + 1;
        }
        out
    }

    /// Whether a command's result needs to know if a device is connected:
    /// a failed integration test.
    pub fn needs_device_probe(&self, aspect: QualityAspect, output: &CommandOutput) -> (r: bool)
        ensures
            r == (aspect == QualityAspect::IntegrationTest && failed(*output)),
    {
        aspect == QualityAspect::IntegrationTest && (output.timed_out || output.exit_code != 0)
    }

    /// The findings and advisories of the configured aspects, given the
    /// outputs of the planned commands in plan order and whether a device
    /// was found connected (when that was asked).
    pub fn run_aspects(&self, aspects: &AspectMap, outputs: &[CommandOutput], device_connected: Option<bool>) -> (r: (Vec<Violation>, Vec<Advisory>))
        requires
            aspects.wf(),
            outputs@.len() == run_count(aspect_order(*aspects), aspect_order(*aspects).len() as int),
        ensures
            (findings(r.0@), advisories(r.1@)) == aspect_results(aspect_order(*aspects), outputs@, device_connected, aspect_order(*aspects).len() as int),
    {
        let order = Self::ordered(aspects);
        let mut violations: Vec<Violation> = Vec::new();
        let mut notes: Vec<Advisory> = Vec::new();
        let mut ran: usize = 0;
        let mut k: usize = 0;
        while k < order.len()
            invariant
                order@ == aspect_order(*aspects),
                outputs@.len() == run_count(order@, order@.len() as int),
                0 <= k <= order@.len(),
                ran as nat == run_count(order@, k as int),
                (findings(violations@), advisories(notes@)) == aspect_results(order@, outputs@, device_connected, k as int),
            decreases order@.len() - k,
        {
            let entry = &order[k];
            let aspect = entry.0;
            let config = &entry.1;
            let ghost vf = findings(violations@);
            let ghost na = advisories(notes@);
            proof {
                lemma_run_count_monotone(order@, k + 1, order@.len() as int);
            }
            let skip = config.enabled == Some(false) || config.severity == Some(Severity::Ignore);
            if !skip {
                match Self::usable_command(config) {
                    None => {
                        let advisory = missing_command(aspect);
                        notes.push(advisory);
                        proof {
                            assert(advisories(notes@) =~= na.push(advisory@));
                        }
                    },
                    Some(_) => {
                        let output = &outputs[ran];
                        if output.timed_out || output.exit_code != 0 {
                            self.report_failure(aspect, config, output, device_connected, &mut violations, &mut notes);
                        }
                        ran = ran + 1;
                    },
                }
            }
            k = k + 1;
        }
        (violations, notes)
    }

    /// Appends what a failed command of `aspect` yields.
    fn report_failure(
        &self,
        aspect: QualityAspect,
        config: &AspectConfig,
        output: &CommandOutput,
        device_connected: Option<bool>,
        violations: &mut Vec<Violation>,
        notes: &mut Vec<Advisory>,
    )
        ensures
            findings(final(violations)@) == findings(old(violations)@) + failure_outcome(aspect, *config, *output, device_connected).0,
            advisories(final(notes)@) == advisories(old(notes)@) + failure_outcome(aspect, *config, *output, device_connected).1,
    {
        let details = format_output(output);
        let severity = match config.severity {
            Some(s) => s,
            None => Severity::Error,
        };
        let integration = aspect == QualityAspect::IntegrationTest;
        let no_device = integration && device_connected == Some(false) && is_device_unavailable_failure(details.as_str());
        let mut msg: Vec<char> = Vec::new();
        push_str(&mut msg, "Quality aspect ");
        push_str(&mut msg, aspect.name());
        push_str(&mut msg, " failed: ");
        push_str(&mut msg, details.as_str());
        let mut fp: Vec<char> = Vec::new();
        push_str(&mut fp, "aspect:");
        push_str(&mut fp, aspect.name());
        if severity == Severity::Advisory || (integration && no_device && config.severity.is_none()) {
            let a = Advisory {
                aspect,
                message: string_of(msg.as_slice()),
                recommendation: "Fix the reported quality check failure.".to_owned(),
                fingerprint: string_of(fp.as_slice()),
            };
            notes.push(a);
            assert(advisories(notes@) =~= advisories(old(notes)@).push(a@));
            assert(findings(violations@) =~= findings(old(violations)@) + Seq::empty());
        } else {
            let v = Violation {
                file: ".".to_owned(),
                line: 0,
                rule: string_of(fp.as_slice()),
                message: string_of(msg.as_slice()),
                severity: severity.to_string(),
                fingerprint: string_of(fp.as_slice()),
            };
            violations.push(v);
            assert(findings(violations@) =~= findings(old(violations)@).push(v@));
            assert(advisories(notes@) =~= advisories(old(notes)@) + Seq::empty());
        }
    }
}

/// The advisory for an aspect without a command.
fn missing_command(aspect: QualityAspect) -> (r: Advisory)
    ensures
        r@ == missing_command_advisory(aspect),
{
    let name = aspect.name();
    let mut msg: Vec<char> = Vec::new();
    push_str(&mut msg, "No command is configured for the ");
    push_str(&mut msg, name);
    push_str(&mut msg, " quality aspect.");
    let mut rec: Vec<char> = Vec::new();
    push_str(&mut rec, "Configure a command for ");
    push_str(&mut rec, name);
    push_str(&mut rec, " in qgate.toml or install its tooling.");
    let mut fp: Vec<char> = Vec::new();
    push_str(&mut fp, "aspect:");
    push_str(&mut fp, name);
    push_str(&mut fp, ":missing-command");
    Advisory {
        aspect,
        message: string_of(msg.as_slice()),
        recommendation: string_of(rec.as_slice()),
        fingerprint: string_of(fp.as_slice()),
    }
}

/// The plan and the results agree: the plan lists exactly one command per
/// output that `run_aspects` expects, so the outputs of the planned
/// commands, in plan order, are what it takes.
pub proof fn lemma_plan_matches_outputs(order: Seq<(QualityAspect, AspectConfig)>, n: int)
    requires
        0 <= n <= order.len(),
    ensures
        planned_commands(order, n).len() == run_count(order, n),
    decreases n,
{
    if n > 0 {
        lemma_plan_matches_outputs(order, n - 1);
    }
}

/// When every command passed, no aspect reports a finding: the only
/// results are the advisories of aspects that have no command.
pub proof fn lemma_passing_commands_report_nothing(
    order: Seq<(QualityAspect, AspectConfig)>,
    outputs: Seq<CommandOutput>,
    device: Option<bool>,
    n: int,
)
    requires
        0 <= n <= order.len(),
        outputs.len() == run_count(order, order.len() as int),
        forall|i: int| 0 <= i < outputs.len() ==> !failed(#[trigger] outputs[i]),
    ensures
        aspect_results(order, outputs, device, n).0.len() == 0,
        forall|i: int|
            0 <= i < aspect_results(order, outputs, device, n).1.len() ==> #[trigger] aspect_results(
                order,
                outputs,
                device,
                n,
            ).1[i] == missing_command_advisory(aspect_results(order, outputs, device, n).1[i].0),
    decreases n,
{
    if n > 0 {
        lemma_passing_commands_report_nothing(order, outputs, device, n - 1);
        lemma_run_count_monotone(order, n, order.len() as int);
        let prev = aspect_results(order, outputs, device, n - 1);
        let now = aspect_results(order, outputs, device, n);
        let a = order[n - 1].0;
        let c = order[n - 1].1;
        if !skipped(c) && command_of(c) is None {
            assert forall|i: int| 0 <= i < now.1.len() implies #[trigger] now.1[i] == missing_command_advisory(now.1[i].0) by {
                if i < prev.1.len() {
                    assert(now.1[i] == prev.1[i]);
                }
            }
        } else if !skipped(c) {
            let o = outputs[run_count(order, n - 1) as int];
            assert(!failed(o));
        }
    }
}

/// Fingerprints name the aspect and nothing else: a finding's fingerprint
/// is its rule, `aspect:` and an aspect's name; an advisory's is
/// `aspect:` and its aspect's name, with `:missing-command` when the
/// aspect has no command.  Neither the command nor its output enters them.
pub proof fn lemma_fingerprints_name_only_the_aspect(
    order: Seq<(QualityAspect, AspectConfig)>,
    outputs: Seq<CommandOutput>,
    device: Option<bool>,
    n: int,
)
    ensures
        forall|i: int|
            0 <= i < aspect_results(order, outputs, device, n).0.len() ==> {
                let f = #[trigger] aspect_results(order, outputs, device, n).0[i];
                &&& f.5 == f.2
                &&& exists|a: QualityAspect| f.5 == "aspect:"@ + aspect_name(a)
            },
        forall|i: int|
            0 <= i < aspect_results(order, outputs, device, n).1.len() ==> {
                let v = #[trigger] aspect_results(order, outputs, device, n).1[i];
                v.3 == "aspect:"@ + aspect_name(v.0) || v.3 == "aspect:"@ + aspect_name(v.0) + ":missing-command"@
            },
    decreases n,
{
    if n > 0 {
        lemma_fingerprints_name_only_the_aspect(order, outputs, device, n - 1);
        let prev = aspect_results(order, outputs, device, n - 1);
        let now = aspect_results(order, outputs, device, n);
        let a = order[n - 1].0;
        let c = order[n - 1].1;
        if !skipped(c) {
            match command_of(c) {
                None => {
                    assert forall|i: int| 0 <= i < now.1.len() implies {
                        let v = #[trigger] now.1[i];
                        v.3 == "aspect:"@ + aspect_name(v.0) || v.3 == "aspect:"@ + aspect_name(v.0) + ":missing-command"@
                    } by {
                        if i < prev.1.len() {
                            assert(now.1[i] == prev.1[i]);
                        }
                    }
                },
                Some(_) => {
                    let o = outputs[run_count(order, n - 1) as int];
                    if failed(o) {
                        let f = failure_outcome(a, c, o, device);
                        assert forall|i: int| 0 <= i < now.0.len() implies {
                            let x = #[trigger] now.0[i];
                            &&& x.5 == x.2
                            &&& exists|b: QualityAspect| x.5 == "aspect:"@ + aspect_name(b)
                        } by {
                            if i < prev.0.len() {
                                assert(now.0[i] == prev.0[i]);
                            } else {
                                assert(now.0[i] == f.0[i - prev.0.len()]);
                                assert(now.0[i].5 == "aspect:"@ + aspect_name(a));
                            }
                        }
                        assert forall|i: int| 0 <= i < now.1.len() implies {
                            let v = #[trigger] now.1[i];
                            v.3 == "aspect:"@ + aspect_name(v.0) || v.3 == "aspect:"@ + aspect_name(v.0) + ":missing-command"@
                        } by {
                            if i < prev.1.len() {
                                assert(now.1[i] == prev.1[i]);
                            } else {
                                assert(now.1[i] == f.1[i - prev.1.len()]);
                            }
                        }
                    }
                },
            }
        }
    }
}

proof fn lemma_run_count_monotone(order: Seq<(QualityAspect, AspectConfig)>, a: int, b: int)
    requires
        0 <= a <= b,
    ensures
        run_count(order, a) <= run_count(order, b),
    decreases b - a,
{
    if a < b {
        lemma_run_count_monotone(order, a, b - 1);
    }
}

} // verus!
