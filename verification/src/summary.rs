//! The text of a trace summary: what each record of a trace is, and the
//! lines printed for its header, its effects and its footer.
use vstd::prelude::*;
use crate::text::{decimal, push_decimal};

verus! {

/// What a record of a trace is.
#[derive(Debug, Clone, Copy, PartialEq, Eq, Structural)]
pub enum RecordKind {
    /// The header: schema version and recording mode.
    Header,
    /// The footer: how the program and the trace ended.
    Footer,
    /// One host call.
    Effect,
    /// Anything else, which the summary skips.
    Other,
}

/// The kind of a record by its `record` tag; a record without a tag is an
/// effect, in the older format.
pub open spec fn record_kind_of(tag: Option<Seq<char>>) -> RecordKind {
    match tag {
        None => RecordKind::Effect,
        Some(t) => if t == "header"@ {
            RecordKind::Header
        } else if t == "footer"@ {
            RecordKind::Footer
        } else if t == "effect"@ {
            RecordKind::Effect
        } else {
            RecordKind::Other
        },
    }
}

/// The kind of a record by its `record` tag.
pub fn classify_record(tag: Option<&str>) -> (r: RecordKind)
    ensures
        r == record_kind_of(match tag {
            Some(t) => Some(t@),
            None => None,
        }),
{
    match tag {
        None => RecordKind::Effect,
        Some(t) => if crate::text::str_equals(t, "header") {
            RecordKind::Header
        } else if crate::text::str_equals(t, "footer") {
            RecordKind::Footer
        } else if crate::text::str_equals(t, "effect") {
            RecordKind::Effect
        } else {
            RecordKind::Other
        },
    }
}

/// The line for a trace without records.
pub fn empty_trace_line() -> (r: String)
    ensures
        r@ == "Trace: empty (no effects recorded)"@,
{
    let mut s = String::new();
    s.append("Trace: empty (no effects recorded)");
    s
}

/// The line for the header: schema version and mode.
pub open spec fn header_text(version: Seq<char>, full: bool) -> Seq<char> {
    "Trace schema: v"@ + version + ", mode: "@ + (if full {
        "full (replay-capable)"@
    } else {
        "audit (hashed)"@
    })
}

/// The line for the header of a trace.
pub fn header_line(version: &str, full: bool) -> (r: String)
    ensures
        r@ == header_text(version@, full),
{
    let mut s = String::new();
    s.append("Trace schema: v");
    s.append(version);
    s.append(", mode: ");
    if full {
        s.append("full (replay-capable)");
    } else {
        s.append("audit (hashed)");
    }
    s
}

/// The line that counts the effects of a trace.
pub fn count_line(n: u64) -> (r: String)
    ensures
        r@ == "Trace summary: "@ + decimal(n as nat) + " effects"@,
{
    let mut s = String::new();
    s.append("Trace summary: ");
    push_decimal(&mut s, n);
    s.append(" effects");
    s
}

/// The line for one effect.
pub open spec fn effect_text(
    seq: u64,
    effect: Seq<char>,
    op: Seq<char>,
    access: Seq<char>,
    status: Seq<char>,
    duration_ms: u64,
) -> Seq<char> {
    "  ["@ + decimal(seq as nat) + "] "@ + effect + "::"@ + op + "    ("@ + access + ") - "@ + status + ", "@
        + decimal(duration_ms as nat) + "ms"@
}

/// The line for one effect of a trace: sequence number, effect and
/// operation, capability access, status and duration.
pub fn effect_line(seq: u64, effect: &str, op: &str, access: &str, status: &str, duration_ms: u64) -> (r: String)
    ensures
        r@ == effect_text(seq, effect@, op@, access@, status@, duration_ms),
{
    let mut s = String::new();
    s.append("  [");
    push_decimal(&mut s, seq);
    s.append("] ");
    s.append(effect);
    s.append("::");
    s.append(op);
    s.append("    (");
    s.append(access);
    s.append(") - ");
    s.append(status);
    s.append(", ");
    push_decimal(&mut s, duration_ms);
    s.append("ms");
    s
}

/// The line for the footer of a trace.
pub fn footer_line(program_status: &str, trace_status: &str) -> (r: String)
    ensures
        r@ == "Program: "@ + program_status@ + ", Trace: "@ + trace_status@,
{
    let mut s = String::new();
    s.append("Program: ");
    s.append(program_status);
    s.append(", Trace: ");
    s.append(trace_status);
    s
}

} // verus!
