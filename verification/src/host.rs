//! The data of host calls and their traces: host errors, capability
//! references, output summaries with SHA-256 digests, sequence numbers,
//! parameter metadata of extern functions, and UTC timestamps.
use vstd::prelude::*;
use sha2::{Digest, Sha256};
use crate::effects::{CapKind, cap_type_text, effect_name, gated_effect};
use crate::text::{decimal, push_char, push_decimal};

verus! {

/// Errors of host function calls.
#[derive(Debug)]
pub enum HostError {
    /// No host function has this name.
    UnknownFunction(String),
    /// An argument has the wrong runtime type.
    TypeError(String),
    /// The host operation failed on I/O.
    IoError(String),
    /// Any other failure at run time.
    RuntimeError(String),
}

/// The message of a host error.
pub open spec fn host_error_text(e: HostError) -> Seq<char> {
    match e {
        HostError::UnknownFunction(name) => "unknown host function: "@ + name@,
        HostError::TypeError(msg) => "type error: "@ + msg@,
        HostError::IoError(msg) => "I/O error: "@ + msg@,
        HostError::RuntimeError(msg) => "runtime error: "@ + msg@,
    }
}

impl HostError {
    /// The message of this error, as it is shown to users.
    pub fn message(&self) -> (r: String)
        ensures
            r@ == host_error_text(*self),
    {
        let (prefix, body) = match self {
            HostError::UnknownFunction(name) => ("unknown host function: ", name),
            HostError::TypeError(msg) => ("type error: ", msg),
            HostError::IoError(msg) => ("I/O error: ", msg),
            HostError::RuntimeError(msg) => ("runtime error: ", msg),
        };
        let mut s = String::new();
        s.append(prefix);
        s.append(body.as_str());
        assert(s@ =~= host_error_text(*self));
        s
    }
}

/// The capability that a host call used, and how.
#[derive(Debug)]
pub struct CapRef {
    /// The capability's type name, such as `FsCap`; empty when none was passed.
    pub kind: String,
    /// `borrow` or `consume`; empty when no capability was passed.
    pub access: String,
}

/// The output section of a trace entry.
#[derive(Debug)]
pub struct TraceOutput {
    /// `ok` or `error`.
    pub status: String,
    /// The output itself, when it is short enough to keep.
    pub value: Option<String>,
    /// The SHA-256 digest of the output, as `sha256:` and lowercase hex.
    pub value_hash: String,
    /// The length of the output in bytes.
    pub value_size: usize,
}

/// The numbering of trace entries. An enabled emitter has its entries
/// written out; a disabled one only counts them.
#[derive(Debug)]
pub struct TraceEmitter {
    seq: u64,
    enabled: bool,
}

impl TraceEmitter {
    /// The next sequence number.
    pub closed spec fn seq(&self) -> u64 {
        self.seq
    }

    /// Whether entries are written out.
    pub closed spec fn enabled(&self) -> bool {
        self.enabled
    }

    /// An emitter whose entries are written out, numbered from zero.
    pub fn new() -> (r: Self)
        ensures
            r.seq() == 0,
            r.enabled(),
    {
        TraceEmitter { seq: 0, enabled: true }
    }

    /// An emitter that writes nothing, numbered from zero.
    pub fn disabled() -> (r: Self)
        ensures
            r.seq() == 0,
            !r.enabled(),
    {
        TraceEmitter { seq: 0, enabled: false }
    }

    /// Whether entries are written out.
    pub fn is_enabled(&self) -> (r: bool)
        ensures
            r == self.enabled(),
    {
        self.enabled
    }

    /// The sequence number that the next entry gets, without moving past it.
    pub fn peek_seq(&self) -> (r: u64)
        ensures
            r == self.seq(),
    {
        self.seq
    }

    /// The next sequence number; the counter moves past it.
    pub fn next_seq(&mut self) -> (r: u64)
        requires
            old(self).seq() < u64::MAX,
        ensures
            r == old(self).seq(),
            final(self).seq() == old(self).seq() + 1,
            final(self).enabled() == old(self).enabled(),
    {
        let s = self.seq;
        self.seq = self.seq + 1;
        s
    }
}

impl Default for TraceEmitter {
    fn default() -> (r: Self)
        ensures
            r.seq() == 0,
            !r.enabled(),
    {
        Self::disabled()
    }
}

/// One parameter of an extern function: a capability or a datum.
#[derive(Debug, Clone)]
pub enum ParamKind {
    /// A capability of this kind, borrowed or consumed.
    Cap { kind: CapKind, borrowed: bool },
    /// A data parameter with its name, recorded among the trace inputs.
    Data { name: String },
}

/// The parameters of an extern function, in order.
#[derive(Debug, Clone)]
pub struct ExternFnMeta {
    pub params: Vec<ParamKind>,
}

// ---------------------------------------------------------------------------
// Capability and inputs of a call
// ---------------------------------------------------------------------------

/// The last capability parameter: its kind and whether it is borrowed.
pub open spec fn last_cap(params: Seq<ParamKind>) -> Option<(CapKind, bool)>
    decreases params.len(),
{
    if params.len() == 0 {
        None
    } else {
        match params.last() {
            ParamKind::Cap { kind, borrowed } => Some((kind, borrowed)),
            ParamKind::Data { .. } => last_cap(params.drop_last()),
        }
    }
}

/// The capability of a call: the type name and access of its last capability
/// parameter, and the name of the effect that capability gates; all three
/// empty when it has none.
pub fn call_capability(meta: &ExternFnMeta) -> (r: (CapRef, String))
    ensures
        match last_cap(meta.params@) {
            Some((kind, borrowed)) => {
                &&& r.0.kind@ == cap_type_text(kind)
                &&& r.0.access@ == (if borrowed { "borrow"@ } else { "consume"@ })
                &&& r.1@ == effect_name(gated_effect(kind))
            },
            None => r.0.kind@.len() == 0 && r.0.access@.len() == 0 && r.1@.len() == 0,
        },
{
    let mut kind_text = String::new();
    let mut access = String::new();
    let mut effect = String::new();
    let mut i: usize = 0;
    while i < meta.params.len()
        invariant
            i <= meta.params@.len(),
            match last_cap(meta.params@.take(i as int)) {
                Some((kind, borrowed)) => {
                    &&& kind_text@ == cap_type_text(kind)
                    &&& access@ == (if borrowed { "borrow"@ } else { "consume"@ })
                    &&& effect@ == effect_name(gated_effect(kind))
                },
                None => kind_text@.len() == 0 && access@.len() == 0 && effect@.len() == 0,
            },
        decreases meta.params@.len() - i,
    {
        proof {
            assert(meta.params@.take(i + 1).drop_last() =~= meta.params@.take(i as int));
        }
        match &meta.params[i] {
            ParamKind::Cap { kind, borrowed } => {
                kind_text = String::new();
                kind_text.append(kind.type_name_str());
                access = String::new();
                if *borrowed {
                    access.append("borrow");
                } else {
                    access.append("consume");
                }
                effect = String::new();
                effect.append(kind.gates_effect().name());
                proof {
                    assert(kind_text@ =~= cap_type_text(*kind));
                    assert(effect@ =~= effect_name(gated_effect(*kind)));
                    assert(access@ =~= (if *borrowed { "borrow"@ } else { "consume"@ }));
                }
            },
            ParamKind::Data { .. } => {},
        }
        i = i + 1;
    }
    assert(meta.params@.take(meta.params@.len() as int) =~= meta.params@);
    (CapRef { kind: kind_text, access }, effect)
}

/// The data parameters among the first `n` positions, with their positions.
pub open spec fn data_positions(params: Seq<ParamKind>, n: nat) -> Seq<(Seq<char>, usize)>
    decreases params.len(),
{
    if params.len() == 0 {
        Seq::empty()
    } else {
        let rest = data_positions(params.drop_last(), n);
        let i = params.len() - 1;
        match params.last() {
            ParamKind::Data { name } => if i < n {
                rest.push((name@, i as usize))
            } else {
                rest
            },
            ParamKind::Cap { .. } => rest,
        }
    }
}

/// The names and positions of the data parameters for which a call has an
/// argument, in order: these are the inputs of its trace entry and the
/// arguments handed to the host function.
pub fn data_inputs(meta: &ExternFnMeta, num_args: usize) -> (r: Vec<(String, usize)>)
    ensures
        r@.map_values(|p: (String, usize)| (p.0@, p.1)) == data_positions(meta.params@, num_args as nat),
{
    let mut out: Vec<(String, usize)> = Vec::new();
    let mut i: usize = 0;
    while i < meta.params.len()
        invariant
            i <= meta.params@.len(),
            out@.map_values(|p: (String, usize)| (p.0@, p.1)) == data_positions(
                meta.params@.take(i as int),
                num_args as nat,
            ),
        decreases meta.params@.len() - i,
    {
        proof {
            assert(meta.params@.take(i + 1).drop_last() =~= meta.params@.take(i as int));
        }
        let ghost before = out@;
        match &meta.params[i] {
            ParamKind::Data { name } => {
                if i < num_args {
                    out.push((name.clone(), i));
                    proof {
                        assert(out@.map_values(|p: (String, usize)| (p.0@, p.1)) =~= before.map_values(
                            |p: (String, usize)| (p.0@, p.1),
                        ).push((name@, i)));
                    }
                }
            },
            ParamKind::Cap { .. } => {},
        }
        i = i + 1;
    }
    assert(meta.params@.take(meta.params@.len() as int) =~= meta.params@);
    out
}

// ---------------------------------------------------------------------------
// Digests
// ---------------------------------------------------------------------------

/// The SHA-256 digest of a byte string.
pub uninterp spec fn sha256_of(data: Seq<u8>) -> Seq<u8>;

/// Calls `sha2::Sha256::digest`, the one-shot hash of the `Digest` trait.
/// Claimed: the result is the SHA-256 digest of exactly these bytes, named
/// `sha256_of`, and it is 32 bytes long, the output size of `Sha256`.
#[verifier::external_body]
fn sha256_digest(data: &[u8]) -> (r: Vec<u8>)
    ensures
        r@ == sha256_of(data@),
        r@.len() == 32,
{
    Sha256::digest(data).to_vec()
}

/// The lowercase hexadecimal digit of a value below 16.
pub open spec fn hex_digit(n: nat) -> char {
    if n < 10 {
        digit_char_of(n)
    } else if n == 10 {
        'a'
    } else if n == 11 {
        'b'
    } else if n == 12 {
        'c'
    } else if n == 13 {
        'd'
    } else if n == 14 {
        'e'
    } else {
        'f'
    }
}

/// The decimal digit of a value below 10.
pub open spec fn digit_char_of(n: nat) -> char {
    crate::text::digit_char(n)
}

/// Two lowercase hexadecimal digits per byte, high digit first.
pub open spec fn hex_text(bytes: Seq<u8>) -> Seq<char>
    decreases bytes.len(),
{
    if bytes.len() == 0 {
        Seq::empty()
    } else {
        hex_text(bytes.drop_last()) + seq![hex_digit((bytes.last() / 16) as nat), hex_digit((bytes.last() % 16) as nat)]
    }
}

fn hex_char(n: u8) -> (c: char)
    requires
        n < 16,
    ensures
        c == hex_digit(n as nat),
{
    if n == 0 { '0' } else if n == 1 { '1' } else if n == 2 { '2' } else if n == 3 { '3' }
    else if n == 4 { '4' } else if n == 5 { '5' } else if n == 6 { '6' } else if n == 7 { '7' }
    else if n == 8 { '8' } else if n == 9 { '9' } else if n == 10 { 'a' } else if n == 11 { 'b' }
    else if n == 12 { 'c' } else if n == 13 { 'd' } else if n == 14 { 'e' } else { 'f' }
}

/// A digest as it is written in traces: `sha256:` and lowercase hex.
pub fn digest_text(digest: &[u8]) -> (r: String)
    ensures
        r@ == "sha256:"@ + hex_text(digest@),
{
    let mut s = String::new();
    s.append("sha256:");
    let mut i: usize = 0;
    while i < digest.len()
        invariant
            i <= digest@.len(),
            s@ == "sha256:"@ + hex_text(digest@.take(i as int)),
        decreases digest@.len() - i,
    {
        let b = digest[i];
        push_char(&mut s, hex_char(b / 16));
        push_char(&mut s, hex_char(b % 16));
        proof {
            assert(digest@.take(i + 1).drop_last() =~= digest@.take(i as int));
            assert(s@ =~= "sha256:"@ + hex_text(digest@.take(i + 1)));
        }
        i = i + 1;
    }
    assert(digest@.take(digest@.len() as int) =~= digest@);
    s
}

/// The SHA-256 digest of a string's UTF-8 bytes, written as `sha256:` and
/// lowercase hex.
pub fn sha256_hex(data: &str) -> (r: String)
    ensures
        r@ == "sha256:"@ + hex_text(sha256_of(vstd::utf8::encode_utf8(data@))),
{
    let digest = sha256_digest(data.as_bytes());
    digest_text(digest.as_slice())
}

/// The largest output, in bytes, that a trace entry keeps.
pub const MAX_TRACED_VALUE: usize = 1024;

/// The output section for a call that succeeded (`ok`) with, or failed with,
/// the given text: the text is kept when the call failed or when it has at
/// most `MAX_TRACED_VALUE` bytes.
pub fn summarize_output(ok: bool, text: String) -> (r: TraceOutput)
    ensures
        r.status@ == (if ok { "ok"@ } else { "error"@ }),
        r.value_size == vstd::utf8::encode_utf8(text@).len(),
        r.value_hash@ == "sha256:"@ + hex_text(sha256_of(vstd::utf8::encode_utf8(text@))),
        r.value == (if ok && r.value_size > MAX_TRACED_VALUE { None } else { Some(text) }),
{
    let size = text.as_str().as_bytes().len();
    let hash = sha256_hex(text.as_str());
    let mut status = String::new();
    if ok {
        status.append("ok");
    } else {
        status.append("error");
    }
    let value = if ok && size > MAX_TRACED_VALUE {
        None
    } else {
        Some(text)
    };
    TraceOutput { status, value, value_hash: hash, value_size: size }
}

// ---------------------------------------------------------------------------
// Timestamps
// ---------------------------------------------------------------------------

/// The civil date (year, month, day) of a day count since 1970-01-01, by the
/// days-to-civil algorithm on 400-year eras.
pub open spec fn civil_from_days(days: nat) -> (nat, nat, nat) {
    let z = days + 719468;
    let era = z / 146097;
    let doe = (z - era * 146097) as nat;
    let yoe = ((doe - doe / 1460 + doe / 36524 - doe / 146096) / 365) as nat;
    let y = yoe + era * 400;
    let doy = (doe - (365 * yoe + yoe / 4 - yoe / 100)) as nat;
    let mp = (5 * doy + 2) / 153;
    let d = (doy - (153 * mp + 2) / 5 + 1) as nat;
    let m = if mp < 10 { mp + 3 } else { (mp - 9) as nat };
    let y2 = if m <= 2 { y + 1 } else { y };
    (y2, m, d)
}

/// Every day count has a civil date with a month from 1 to 12 and a day of
/// the month from 1 to 31, in the year 1970 or later.
pub proof fn lemma_civil_date_in_range(days: nat)
    ensures
        1 <= civil_from_days(days).1 <= 12,
        1 <= civil_from_days(days).2 <= 31,
        civil_from_days(days).0 >= 1970,
{
    let z = days + 719468;
    let era = z / 146097;
    let doe = (z - era * 146097) as nat;
    assert(0 <= doe < 146097) by (nonlinear_arith)
        requires
            era == z / 146097,
            doe == z - era * 146097,
    ;
    let yoe = ((doe - doe / 1460 + doe / 36524 - doe / 146096) / 365) as nat;
    let doy = (doe - (365 * yoe + yoe / 4 - yoe / 100)) as nat;
    assert(0 <= doe - (365 * yoe + yoe / 4 - yoe / 100) <= 365) by (nonlinear_arith)
        requires
            0 <= doe < 146097,
            yoe == (doe - doe / 1460 + doe / 36524 - doe / 146096) / 365,
    ;
    let mp = (5 * doy + 2) / 153;
    assert(mp <= 11);
    assert(1 <= doy - (153 * mp + 2) / 5 + 1 <= 31);
    assert(era >= 4);
}

/// The decimal spelling of `n`, padded with zeros to `width` digits.
pub open spec fn padded(n: nat, width: nat) -> Seq<char>
    decreases width,
{
    if width == 0 || decimal(n).len() >= width {
        decimal(n)
    } else {
        seq!['0'] + padded(n, (width - 1) as nat)
    }
}

/// The ISO 8601 UTC timestamp of a time since the epoch, to milliseconds:
/// `YYYY-MM-DDTHH:MM:SS.mmmZ`.
pub open spec fn iso8601_text(secs: nat, millis: nat) -> Seq<char> {
    let (y, m, d) = civil_from_days(secs / 86400);
    let rem = secs % 86400;
    padded(y, 4) + "-"@ + padded(m, 2) + "-"@ + padded(d, 2) + "T"@ + padded(rem / 3600, 2) + ":"@ + padded(
        (rem % 3600) / 60,
        2,
    ) + ":"@ + padded(rem % 60, 2) + "."@ + padded(millis, 3) + "Z"@
}

/// The number of decimal digits of `n`.
fn decimal_width(n: u64) -> (r: u64)
    ensures
        r == decimal(n as nat).len(),
        r <= n + 1,
    decreases n,
{
    if n < 10 {
        1
    } else {
        decimal_width(n / 10) + 1
    }
}

/// Appends `n` padded with zeros to `width` digits.
fn push_padded(s: &mut String, n: u64, width: u64)
    requires
        width <= 4,
    ensures
        final(s)@ == old(s)@ + padded(n as nat, width as nat),
    decreases width,
{
    if width == 0 || decimal_width(n) >= width {
        push_decimal(s, n);
    } else {
        push_char(s, '0');
        push_padded(s, n, width - 1);
        assert(old(s)@.push('0') + padded(n as nat, (width - 1) as nat) =~= old(s)@ + padded(n as nat, width as nat));
    }
}

/// The ISO 8601 UTC timestamp of `secs` seconds and `millis` milliseconds
/// after the epoch.
pub fn iso8601_utc(secs: u64, millis: u32) -> (r: String)
    ensures
        r@ == iso8601_text(secs as nat, millis as nat),
{
    let days: u64 = secs / 86400;
    let z: u64 = days + 719468;
    let era: u64 = z / 146097;
    let doe: u64 = z - era * 146097;
    let yoe: u64 = (doe - doe / 1460 + doe / 36524 - doe / 146096) / 365;
    let y: u64 = yoe + era * 400;
    let doy: u64 = doe - (365 * yoe + yoe / 4 - yoe / 100);
    let mp: u64 = (5 * doy + 2) / 153;
    let d: u64 = doy - (153 * mp + 2) / 5 + 1;
    let m: u64 = if mp < 10 { mp + 3 } else { mp - 9 };
    let y2: u64 = if m <= 2 { y + 1 } else { y };
    let rem: u64 = secs % 86400;
    let mut s = String::new();
    push_padded(&mut s, y2, 4);
    s.append("-");
    push_padded(&mut s, m, 2);
    s.append("-");
    push_padded(&mut s, d, 2);
    s.append("T");
    push_padded(&mut s, rem / 3600, 2);
    s.append(":");
    push_padded(&mut s, (rem % 3600) / 60, 2);
    s.append(":");
    push_padded(&mut s, rem % 60, 2);
    s.append(".");
    push_padded(&mut s, millis as u64, 3);
    s.append("Z");
    s
}

} // verus!
