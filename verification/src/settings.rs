//! The settings snapshot, the daemon's line-based configuration text, and
//! the debounced settings writer.
//!
//! The daemon's configuration is exchanged as flat `key: value` lines with
//! optionally quoted values.  Unknown keys are ignored and missing keys keep
//! their prior values.  The writer batches rapid field edits into a single
//! write after a quiet period; exclusion-pattern edits are written
//! immediately.

use vstd::prelude::*;

use crate::bytes::ascii_bytes;
use crate::bytes::bytes_eq;
use crate::bytes::bytes_range;
use crate::bytes::dec_repr;
use crate::bytes::dec_value;
use crate::bytes::find_byte;
use crate::bytes::is_digits;
use crate::bytes::is_ws;
use crate::bytes::parse_u32;
use crate::bytes::push_all;
use crate::bytes::scan;
use crate::bytes::spec_trim;
use crate::bytes::str_bytes;
use crate::bytes::trim;
use crate::bytes::u32_to_dec;

verus! {

/// Whether the daemon syncs on its own or only when asked.
#[derive(Clone, Copy, PartialEq, Eq, Structural, Debug)]
pub enum SyncMode {
    Automatic,
    Manual,
}

/// How the daemon is told to handle conflicts it detects.
#[derive(Clone, Copy, PartialEq, Eq, Structural, Debug)]
pub enum ConflictResolution {
    AlwaysAsk,
    KeepLocal,
    KeepRemote,
    KeepBoth,
}

/// The flat settings snapshot owned by the debounced writer.  The daemon is
/// the source of truth; this is the client's working copy.
#[derive(Clone, Copy, PartialEq, Eq, Structural, Debug)]
pub struct Settings {
    pub sync_mode: SyncMode,
    pub conflict_resolution: ConflictResolution,
    /// Minutes between sync cycles, kept within 1 to 60.
    pub sync_interval_minutes: u32,
    /// Upload limit in KB/s; 0 means unlimited.  Kept within 0 to 100000.
    pub upload_limit_kbps: u32,
    /// Download limit in KB/s; 0 means unlimited.  Kept within 0 to 100000.
    pub download_limit_kbps: u32,
}

/// Largest accepted bandwidth limit, in KB/s.
pub const LIMIT_MAX_KBPS: u32 = 100000;

impl Settings {
    /// The ranges every held snapshot satisfies.
    pub open spec fn wf(&self) -> bool {
        &&& 1 <= self.sync_interval_minutes <= 60
        &&& self.upload_limit_kbps <= LIMIT_MAX_KBPS
        &&& self.download_limit_kbps <= LIMIT_MAX_KBPS
    }

    pub open spec fn spec_defaults() -> Settings {
        Settings {
            sync_mode: SyncMode::Manual,
            conflict_resolution: ConflictResolution::AlwaysAsk,
            sync_interval_minutes: 5,
            upload_limit_kbps: 0,
            download_limit_kbps: 0,
        }
    }

    /// The values shown before the daemon's configuration has been read.
    pub fn defaults() -> (r: Settings)
        ensures
            r == Self::spec_defaults(),
            r.wf(),
    {
        Settings {
            sync_mode: SyncMode::Manual,
            conflict_resolution: ConflictResolution::AlwaysAsk,
            sync_interval_minutes: 5,
            upload_limit_kbps: 0,
            download_limit_kbps: 0,
        }
    }
}

/// `v` forced into `[lo, hi]`.
pub open spec fn spec_clamp(v: int, lo: int, hi: int) -> int {
    if v < lo {
        lo
    } else if v > hi {
        hi
    } else {
        v
    }
}

fn clamp_u32(v: u32, lo: u32, hi: u32) -> (r: u32)
    requires
        lo <= hi,
    ensures
        r == spec_clamp(v as int, lo as int, hi as int),
{
    if v < lo {
        lo
    } else if v > hi {
        hi
    } else {
        v
    }
}

// ---------------------------------------------------------------------------
// Reading configuration text
// ---------------------------------------------------------------------------
/// `s` with every leading and trailing double quote removed.
pub open spec fn spec_trim_quotes(s: Seq<u8>) -> Seq<u8>
    decreases s.len(),
{
    if s.len() == 0 {
        s
    } else if s[0] == 34 {
        spec_trim_quotes(s.subrange(1, s.len() as int))
    } else if s[s.len() - 1] == 34 {
        spec_trim_quotes(s.subrange(0, s.len() - 1))
    } else {
        s
    }
}

fn trim_quotes(s: &[u8]) -> (r: Vec<u8>)
    ensures
        r@ == spec_trim_quotes(s@),
{
    let mut lo: usize = 0;
    let mut hi: usize = s.len();
    assert(s@.subrange(0, s@.len() as int) =~= s@);
    while lo < hi && s[lo] == 34
        invariant
            lo <= hi <= s.len(),
            spec_trim_quotes(s@) == spec_trim_quotes(s@.subrange(lo as int, hi as int)),
        decreases hi - lo,
    {
        assert(s@.subrange(lo as int, hi as int).subrange(1, (hi - lo) as int) =~= s@.subrange(
            lo + 1 as int,
            hi as int,
        ));
        lo += 1;
    }
    while lo < hi && s[hi - 1] == 34
        invariant
            lo <= hi <= s.len(),
            spec_trim_quotes(s@) == spec_trim_quotes(s@.subrange(lo as int, hi as int)),
            lo < hi ==> s@[lo as int] != 34,
        decreases hi - lo,
    {
        assert(s@.subrange(lo as int, hi as int).subrange(0, (hi - lo - 1) as int) =~= s@.subrange(
            lo as int,
            (hi - 1) as int,
        ));
        hi -= 1;
    }
    bytes_range(s, lo, hi)
}

/// The boolean meaning of a `sync_mode`/`auto_sync` value.
pub open spec fn means_automatic(v: Seq<u8>) -> bool {
    v == ascii_bytes("true"@) || v == ascii_bytes("auto"@) || v == ascii_bytes("automatic"@)
}

/// The strategy named by a `conflict_resolution` value; unrecognized values
/// fall back to asking.
pub open spec fn resolution_of(v: Seq<u8>) -> ConflictResolution {
    if v == ascii_bytes("ask"@) || v == ascii_bytes("always_ask"@) {
        ConflictResolution::AlwaysAsk
    } else if v == ascii_bytes("keep_local"@) || v == ascii_bytes("local"@) {
        ConflictResolution::KeepLocal
    } else if v == ascii_bytes("keep_remote"@) || v == ascii_bytes("remote"@) {
        ConflictResolution::KeepRemote
    } else if v == ascii_bytes("keep_both"@) || v == ascii_bytes("both"@) {
        ConflictResolution::KeepBoth
    } else {
        ConflictResolution::AlwaysAsk
    }
}

/// The effect of one trimmed, unquoted key-value pair on a snapshot.
/// Unknown keys and unparsable numbers leave the snapshot unchanged.
pub open spec fn spec_apply_keyed(s: Settings, key: Seq<u8>, value: Seq<u8>) -> Settings {
    if key == ascii_bytes("sync_mode"@) || key == ascii_bytes("auto_sync"@) {
        Settings {
            sync_mode: if means_automatic(value) {
                SyncMode::Automatic
            } else {
                SyncMode::Manual
            },
            ..s
        }
    } else if key == ascii_bytes("conflict_resolution"@) {
        Settings { conflict_resolution: resolution_of(value), ..s }
    } else if key == ascii_bytes("sync_interval"@) || key == ascii_bytes(
        "sync_interval_minutes"@,
    ) {
        if is_digits(value) && dec_value(value) <= u32::MAX {
            Settings {
                sync_interval_minutes: spec_clamp(dec_value(value), 1, 60) as u32,
                ..s
            }
        } else {
            s
        }
    } else if key == ascii_bytes("upload_limit"@) || key == ascii_bytes("upload_limit_kbps"@) {
        if is_digits(value) && dec_value(value) <= u32::MAX {
            Settings {
                upload_limit_kbps: spec_clamp(dec_value(value), 0, LIMIT_MAX_KBPS as int)
                    as u32,
                ..s
            }
        } else {
            s
        }
    } else if key == ascii_bytes("download_limit"@) || key == ascii_bytes(
        "download_limit_kbps"@,
    ) {
        if is_digits(value) && dec_value(value) <= u32::MAX {
            Settings {
                download_limit_kbps: spec_clamp(dec_value(value), 0, LIMIT_MAX_KBPS as int)
                    as u32,
                ..s
            }
        } else {
            s
        }
    } else {
        s
    }
}

/// The effect of one configuration line on a snapshot.  The line is split at
/// its first colon; key and value are trimmed and the value is unquoted.
/// Lines without a colon leave the snapshot unchanged.
pub open spec fn spec_apply_line(s: Settings, line: Seq<u8>) -> Settings {
    let p = scan(line, 58, 0);
    if p >= line.len() {
        s
    } else {
        let key = spec_trim(line.subrange(0, p));
        let value = spec_trim_quotes(spec_trim(line.subrange(p + 1, line.len() as int)));
        spec_apply_keyed(s, key, value)
    }
}

fn key_is(k: &[u8], w: &str) -> (r: bool)
    requires
        w.is_ascii(),
    ensures
        r == (k@ == ascii_bytes(w@)),
{
    let wb = str_bytes(w);
    bytes_eq(k, wb.as_slice())
}

/// Exec mirror of [`spec_apply_line`].
fn apply_line(s: Settings, line: &[u8]) -> (r: Settings)
    ensures
        r == spec_apply_line(s, line@),
{
    proof {
        reveal_strlit("sync_mode");
        reveal_strlit("auto_sync");
        reveal_strlit("true");
        reveal_strlit("auto");
        reveal_strlit("automatic");
        reveal_strlit("conflict_resolution");
        reveal_strlit("ask");
        reveal_strlit("always_ask");
        reveal_strlit("keep_local");
        reveal_strlit("local");
        reveal_strlit("keep_remote");
        reveal_strlit("remote");
        reveal_strlit("keep_both");
        reveal_strlit("both");
        reveal_strlit("sync_interval");
        reveal_strlit("sync_interval_minutes");
        reveal_strlit("upload_limit");
        reveal_strlit("upload_limit_kbps");
        reveal_strlit("download_limit");
        reveal_strlit("download_limit_kbps");
    }
    let p = find_byte(line, 58, 0);
    if p >= line.len() {
        return s;
    }
    let key_raw = bytes_range(line, 0, p);
    let key = trim(key_raw.as_slice());
    let value_raw = bytes_range(line, p + 1, line.len());
    let value_trimmed = trim(value_raw.as_slice());
    let value = trim_quotes(value_trimmed.as_slice());
    if key_is(key.as_slice(), "sync_mode") || key_is(key.as_slice(), "auto_sync") {
        let active = key_is(value.as_slice(), "true") || key_is(value.as_slice(), "auto")
            || key_is(value.as_slice(), "automatic");
        Settings {
            sync_mode: if active {
                SyncMode::Automatic
            } else {
                SyncMode::Manual
            },
            ..s
        }
    } else if key_is(key.as_slice(), "conflict_resolution") {
        let r = if key_is(value.as_slice(), "ask") || key_is(value.as_slice(), "always_ask") {
            ConflictResolution::AlwaysAsk
        } else if key_is(value.as_slice(), "keep_local") || key_is(value.as_slice(), "local") {
            ConflictResolution::KeepLocal
        } else if key_is(value.as_slice(), "keep_remote") || key_is(value.as_slice(), "remote") {
            ConflictResolution::KeepRemote
        } else if key_is(value.as_slice(), "keep_both") || key_is(value.as_slice(), "both") {
            ConflictResolution::KeepBoth
        } else {
            ConflictResolution::AlwaysAsk
        };
        Settings { conflict_resolution: r, ..s }
    } else if key_is(key.as_slice(), "sync_interval") || key_is(
        key.as_slice(),
        "sync_interval_minutes",
    ) {
        match parse_u32(value.as_slice()) {
            Some(n) => Settings { sync_interval_minutes: clamp_u32(n, 1, 60), ..s },
            None => s,
        }
    } else if key_is(key.as_slice(), "upload_limit") || key_is(
        key.as_slice(),
        "upload_limit_kbps",
    ) {
        match parse_u32(value.as_slice()) {
            Some(n) => Settings { upload_limit_kbps: clamp_u32(n, 0, LIMIT_MAX_KBPS), ..s },
            None => s,
        }
    } else if key_is(key.as_slice(), "download_limit") || key_is(
        key.as_slice(),
        "download_limit_kbps",
    ) {
        match parse_u32(value.as_slice()) {
            Some(n) => Settings { download_limit_kbps: clamp_u32(n, 0, LIMIT_MAX_KBPS), ..s },
            None => s,
        }
    } else {
        s
    }
}

/// The snapshot after reading the configuration text from position `i` on,
/// one line per newline byte.
pub open spec fn spec_apply_from(s: Settings, text: Seq<u8>, i: int) -> Settings
    decreases text.len() - i,
{
    if !(0 <= i <= text.len()) {
        s
    } else {
        let e = scan(text, 10, i);
        let e2 = if i <= e <= text.len() {
            e
        } else {
            i
        };
        let s2 = spec_apply_line(s, text.subrange(i, e2));
        if e2 < text.len() {
            spec_apply_from(s2, text, e2 + 1)
        } else {
            s2
        }
    }
}

/// The snapshot after reading a full configuration text on top of `s`.
pub open spec fn spec_apply_config(s: Settings, text: Seq<u8>) -> Settings {
    spec_apply_from(s, text, 0)
}

fn apply_from(s: Settings, text: &[u8], i: usize) -> (r: Settings)
    requires
        i <= text@.len(),
    ensures
        r == spec_apply_from(s, text@, i as int),
    decreases text@.len() - i,
{
    let e = find_byte(text, 10, i);
    let line = bytes_range(text, i, e);
    let s2 = apply_line(s, line.as_slice());
    if e < text.len() {
        apply_from(s2, text, e + 1)
    } else {
        s2
    }
}

/// Read a configuration text, overriding in `s` every field the text names.
/// Unknown keys are ignored; keys the text lacks keep their prior values.
pub fn apply_config(s: &mut Settings, text: &[u8])
    ensures
        *final(s) == spec_apply_config(*old(s), text@),
{
    *s = apply_from(*s, text, 0);
}

/// Reading configuration text keeps the snapshot well formed: every numeric
/// field the text sets is clamped into its range, and fields it does not set
/// keep their prior, well-formed values.
pub proof fn lemma_apply_config_preserves_wf(s: Settings, text: Seq<u8>)
    requires
        s.wf(),
    ensures
        spec_apply_config(s, text).wf(),
{
    lemma_apply_from_preserves_wf(s, text, 0);
}

proof fn lemma_apply_line_preserves_wf(s: Settings, line: Seq<u8>)
    requires
        s.wf(),
    ensures
        spec_apply_line(s, line).wf(),
{
}

proof fn lemma_apply_from_preserves_wf(s: Settings, text: Seq<u8>, i: int)
    requires
        s.wf(),
    ensures
        spec_apply_from(s, text, i).wf(),
    decreases text.len() - i,
{
    if 0 <= i <= text.len() {
        let e = scan(text, 10, i);
        let e2 = if i <= e <= text.len() {
            e
        } else {
            i
        };
        lemma_apply_line_preserves_wf(s, text.subrange(i, e2));
        if e2 < text.len() {
            lemma_apply_from_preserves_wf(spec_apply_line(s, text.subrange(i, e2)), text, e2 + 1);
        }
    }
}

// ---------------------------------------------------------------------------
// Writing configuration text
// ---------------------------------------------------------------------------
/// The value written for the sync mode.
pub open spec fn sync_mode_bytes(m: SyncMode) -> Seq<u8> {
    match m {
        SyncMode::Automatic => ascii_bytes("automatic"@),
        SyncMode::Manual => ascii_bytes("manual"@),
    }
}

/// The value written for the conflict resolution strategy.
pub open spec fn resolution_bytes(r: ConflictResolution) -> Seq<u8> {
    match r {
        ConflictResolution::AlwaysAsk => ascii_bytes("always_ask"@),
        ConflictResolution::KeepLocal => ascii_bytes("keep_local"@),
        ConflictResolution::KeepRemote => ascii_bytes("keep_remote"@),
        ConflictResolution::KeepBoth => ascii_bytes("keep_both"@),
    }
}

/// The configuration text a debounced write carries: the full current value
/// of every field the writer owns, one line per field.
pub open spec fn spec_render_config(s: Settings) -> Seq<u8> {
    ascii_bytes("sync_mode: \""@) + sync_mode_bytes(s.sync_mode) + ascii_bytes(
        "\"\nconflict_resolution: \""@,
    ) + resolution_bytes(s.conflict_resolution) + ascii_bytes("\"\nsync_interval_minutes: "@)
        + dec_repr(s.sync_interval_minutes as nat) + ascii_bytes("\nupload_limit_kbps: "@)
        + dec_repr(s.upload_limit_kbps as nat) + ascii_bytes("\ndownload_limit_kbps: "@)
        + dec_repr(s.download_limit_kbps as nat) + ascii_bytes("\n"@)
}

/// Exec mirror of [`spec_render_config`].
pub fn render_config(s: &Settings) -> (r: Vec<u8>)
    ensures
        r@ == spec_render_config(*s),
{
    proof {
        reveal_strlit("sync_mode: \"");
        reveal_strlit("\"\nconflict_resolution: \"");
        reveal_strlit("\"\nsync_interval_minutes: ");
        reveal_strlit("\nupload_limit_kbps: ");
        reveal_strlit("\ndownload_limit_kbps: ");
        reveal_strlit("\n");
        reveal_strlit("automatic");
        reveal_strlit("manual");
        reveal_strlit("always_ask");
        reveal_strlit("keep_local");
        reveal_strlit("keep_remote");
        reveal_strlit("keep_both");
    }
    let mut out: Vec<u8> = Vec::new();
    push_all(&mut out, str_bytes("sync_mode: \"").as_slice());
    let mode = match s.sync_mode {
        SyncMode::Automatic => str_bytes("automatic"),
        SyncMode::Manual => str_bytes("manual"),
    };
    push_all(&mut out, mode.as_slice());
    push_all(&mut out, str_bytes("\"\nconflict_resolution: \"").as_slice());
    let res = match s.conflict_resolution {
        ConflictResolution::AlwaysAsk => str_bytes("always_ask"),
        ConflictResolution::KeepLocal => str_bytes("keep_local"),
        ConflictResolution::KeepRemote => str_bytes("keep_remote"),
        ConflictResolution::KeepBoth => str_bytes("keep_both"),
    };
    push_all(&mut out, res.as_slice());
    push_all(&mut out, str_bytes("\"\nsync_interval_minutes: ").as_slice());
    push_all(&mut out, u32_to_dec(s.sync_interval_minutes).as_slice());
    push_all(&mut out, str_bytes("\nupload_limit_kbps: ").as_slice());
    push_all(&mut out, u32_to_dec(s.upload_limit_kbps).as_slice());
    push_all(&mut out, str_bytes("\ndownload_limit_kbps: ").as_slice());
    push_all(&mut out, u32_to_dec(s.download_limit_kbps).as_slice());
    push_all(&mut out, str_bytes("\n").as_slice());
    out
}

// ---------------------------------------------------------------------------
// The write/read round trip
// ---------------------------------------------------------------------------
/// `c` does not occur in `s`.
pub open spec fn lacks(s: Seq<u8>, c: u8) -> bool {
    forall|j: int| 0 <= j < s.len() ==> s[j] != c
}

proof fn lemma_lacks_concat(a: Seq<u8>, b: Seq<u8>, c: u8)
    requires
        lacks(a, c),
        lacks(b, c),
    ensures
        lacks(a + b, c),
{
    assert forall|j: int| 0 <= j < (a + b).len() implies (a + b)[j] != c by {
        if j < a.len() {
            assert((a + b)[j] == a[j]);
        } else {
            assert((a + b)[j] == b[j - a.len()]);
        }
    }
}

proof fn lemma_scan_shift(s: Seq<u8>, c: u8, k: int, i: int)
    requires
        0 <= k,
        0 <= i,
        k + i <= s.len(),
    ensures
        scan(s, c, k + i) == k + scan(s.subrange(k, s.len() as int), c, i),
    decreases s.len() - (k + i),
{
    let sub = s.subrange(k, s.len() as int);
    if k + i < s.len() {
        assert(s[k + i] == sub[i]);
        if s[k + i] != c {
            lemma_scan_shift(s, c, k, i + 1);
        }
    }
}

proof fn lemma_apply_from_shift(s0: Settings, text: Seq<u8>, k: int)
    requires
        0 <= k <= text.len(),
    ensures
        spec_apply_from(s0, text, k) == spec_apply_config(
            s0,
            text.subrange(k, text.len() as int),
        ),
    decreases text.len() - k,
{
    let sub = text.subrange(k, text.len() as int);
    lemma_scan_shift(text, 10, k, 0);
    crate::bytes::lemma_scan_bounds(text, 10, k);
    crate::bytes::lemma_scan_bounds(sub, 10, 0);
    let e = scan(text, 10, k);
    let es = scan(sub, 10, 0);
    assert(e == k + es);
    assert(text.subrange(k, e) =~= sub.subrange(0, es));
    let s2 = spec_apply_line(s0, text.subrange(k, e));
    if e < text.len() {
        lemma_apply_from_shift(s2, text, e + 1);
        lemma_apply_from_shift(s2, sub, es + 1);
        assert(sub.subrange(es + 1, sub.len() as int) =~= text.subrange(
            e + 1,
            text.len() as int,
        ));
    }
}

/// Reading a text that starts with one newline-free line applies that line,
/// then reads the rest.
proof fn lemma_apply_line_prefix(s0: Settings, line: Seq<u8>, rest: Seq<u8>)
    requires
        lacks(line, 10),
    ensures
        spec_apply_config(s0, line + seq![10u8] + rest) == spec_apply_config(
            spec_apply_line(s0, line),
            rest,
        ),
{
    let text = line + seq![10u8] + rest;
    crate::bytes::lemma_scan_bounds(text, 10, 0);
    let e = scan(text, 10, 0);
    assert(text[line.len() as int] == 10);
    assert(forall|j: int| 0 <= j < line.len() ==> text[j] == line[j]);
    if e < line.len() {
        assert(text[e] == line[e]);
        assert(false);
    }
    if e > line.len() {
        assert(text[line.len() as int] != 10);
        assert(false);
    }
    assert(text.subrange(0, e) =~= line);
    let s2 = spec_apply_line(s0, line);
    lemma_apply_from_shift(s2, text, e + 1);
    assert(text.subrange(e + 1, text.len() as int) =~= rest);
}

proof fn lemma_trim_quotes_fixed(s: Seq<u8>)
    requires
        s.len() > 0 ==> (s[0] != 34 && s[s.len() - 1] != 34),
    ensures
        spec_trim_quotes(s) == s,
{
}

/// Reading back a line written as `key: "value"`.
proof fn lemma_keyed_line_quoted(s0: Settings, key: Seq<u8>, value: Seq<u8>)
    requires
        key.len() > 0,
        lacks(key, 58),
        !is_ws(key[0]),
        !is_ws(key[key.len() - 1]),
        value.len() > 0,
        !is_ws(value[0]),
        !is_ws(value[value.len() - 1]),
        value[0] != 34,
        value[value.len() - 1] != 34,
    ensures
        spec_apply_line(s0, key + ascii_bytes(": \""@) + value + ascii_bytes("\""@))
            == spec_apply_keyed(s0, key, value),
{
    reveal_strlit(": \"");
    reveal_strlit("\"");
    let mid = ascii_bytes(": \""@);
    let quote = ascii_bytes("\""@);
    assert(mid.len() == 3 && mid[0] == 58 && mid[1] == 32 && mid[2] == 34);
    assert(quote.len() == 1 && quote[0] == 34);
    let line = key + mid + value + quote;
    crate::bytes::lemma_scan_bounds(line, 58, 0);
    let p = scan(line, 58, 0);
    assert(line[key.len() as int] == 58);
    assert(forall|j: int| 0 <= j < key.len() ==> line[j] == key[j]);
    if p < key.len() {
        assert(line[p] == key[p]);
        assert(false);
    }
    if p > key.len() {
        assert(line[key.len() as int] != 58);
        assert(false);
    }
    assert(p < line.len());
    assert(line.subrange(0, p) =~= key);
    crate::bytes::lemma_trim_fixed(key);
    let vraw = line.subrange(p + 1, line.len() as int);
    let v1 = seq![34u8] + value + quote;
    assert(vraw =~= seq![32u8] + v1);
    assert(vraw[0] == 32 && is_ws(vraw[0]));
    assert(vraw.subrange(1, vraw.len() as int) =~= v1);
    assert(v1[0] == 34 && v1[v1.len() - 1] == 34);
    crate::bytes::lemma_trim_fixed(v1);
    assert(spec_trim(vraw) == v1);
    let v2 = value + quote;
    assert(v1.subrange(1, v1.len() as int) =~= v2);
    assert(v2[0] != 34 && v2[v2.len() - 1] == 34);
    assert(v2.subrange(0, v2.len() - 1) =~= value);
    lemma_trim_quotes_fixed(value);
    assert(spec_trim_quotes(v1) == spec_trim_quotes(v2));
    assert(spec_trim_quotes(v2) == spec_trim_quotes(value));
    assert(spec_trim_quotes(v1) == value);
}

/// Reading back a line written as `key: value` with a bare value.
proof fn lemma_keyed_line_bare(s0: Settings, key: Seq<u8>, value: Seq<u8>)
    requires
        key.len() > 0,
        lacks(key, 58),
        !is_ws(key[0]),
        !is_ws(key[key.len() - 1]),
        value.len() > 0,
        !is_ws(value[0]),
        !is_ws(value[value.len() - 1]),
        value[0] != 34,
        value[value.len() - 1] != 34,
    ensures
        spec_apply_line(s0, key + ascii_bytes(": "@) + value) == spec_apply_keyed(
            s0,
            key,
            value,
        ),
{
    reveal_strlit(": ");
    let mid = ascii_bytes(": "@);
    assert(mid.len() == 2 && mid[0] == 58 && mid[1] == 32);
    let line = key + mid + value;
    crate::bytes::lemma_scan_bounds(line, 58, 0);
    let p = scan(line, 58, 0);
    assert(line[key.len() as int] == 58);
    assert(forall|j: int| 0 <= j < key.len() ==> line[j] == key[j]);
    if p < key.len() {
        assert(line[p] == key[p]);
        assert(false);
    }
    if p > key.len() {
        assert(line[key.len() as int] != 58);
        assert(false);
    }
    assert(p < line.len());
    assert(line.subrange(0, p) =~= key);
    crate::bytes::lemma_trim_fixed(key);
    let vraw = line.subrange(p + 1, line.len() as int);
    assert(vraw =~= seq![32u8] + value);
    assert(vraw[0] == 32 && is_ws(vraw[0]));
    assert(vraw.subrange(1, vraw.len() as int) =~= value);
    crate::bytes::lemma_trim_fixed(value);
    assert(spec_trim(vraw) == value);
    lemma_trim_quotes_fixed(value);
}

proof fn lemma_keyed_mode(t: Settings, m: SyncMode)
    ensures
        spec_apply_keyed(t, ascii_bytes("sync_mode"@), sync_mode_bytes(m)) == (Settings {
            sync_mode: m,
            ..t
        }),
{
    reveal_strlit("sync_mode");
    reveal_strlit("true");
    reveal_strlit("auto");
    reveal_strlit("automatic");
    reveal_strlit("manual");
    match m {
        SyncMode::Automatic => {
            assert(means_automatic(sync_mode_bytes(m)));
        },
        SyncMode::Manual => {
            let w = sync_mode_bytes(m);
            assert(w.len() == 6);
            assert(!means_automatic(w));
        },
    }
}

proof fn lemma_keyed_res(t: Settings, r: ConflictResolution)
    ensures
        spec_apply_keyed(t, ascii_bytes("conflict_resolution"@), resolution_bytes(r)) == (Settings {
            conflict_resolution: r,
            ..t
        }),
{
    reveal_strlit("sync_mode");
    reveal_strlit("auto_sync");
    reveal_strlit("conflict_resolution");
    reveal_strlit("ask");
    reveal_strlit("always_ask");
    reveal_strlit("keep_local");
    reveal_strlit("local");
    reveal_strlit("keep_remote");
    reveal_strlit("remote");
    reveal_strlit("keep_both");
    reveal_strlit("both");
    let k = ascii_bytes("conflict_resolution"@);
    assert(k.len() == 19 && ascii_bytes("sync_mode"@).len() == 9 && ascii_bytes(
        "auto_sync"@,
    ).len() == 9);
    let v = resolution_bytes(r);
    match r {
        ConflictResolution::AlwaysAsk => {
            assert(v == ascii_bytes("always_ask"@));
        },
        ConflictResolution::KeepLocal => {
            assert(v[0] != ascii_bytes("always_ask"@)[0]);
            assert(v != ascii_bytes("always_ask"@) && v != ascii_bytes("ask"@));
        },
        ConflictResolution::KeepRemote => {
            assert(v != ascii_bytes("always_ask"@) && v != ascii_bytes("ask"@) && v != ascii_bytes(
                "keep_local"@,
            ) && v != ascii_bytes("local"@));
        },
        ConflictResolution::KeepBoth => {
            assert(v != ascii_bytes("always_ask"@) && v != ascii_bytes("ask"@) && v != ascii_bytes(
                "keep_local"@,
            ) && v != ascii_bytes("local"@) && v != ascii_bytes("keep_remote"@) && v
                != ascii_bytes("remote"@));
        },
    }
}

proof fn lemma_keyed_interval(t: Settings, n: u32)
    requires
        1 <= n <= 60,
    ensures
        spec_apply_keyed(t, ascii_bytes("sync_interval_minutes"@), dec_repr(n as nat)) == (Settings {
            sync_interval_minutes: n,
            ..t
        }),
{
    reveal_strlit("sync_mode");
    reveal_strlit("auto_sync");
    reveal_strlit("conflict_resolution");
    reveal_strlit("sync_interval");
    reveal_strlit("sync_interval_minutes");
    crate::bytes::lemma_dec_repr_digits(n as nat);
    crate::bytes::lemma_dec_value_of_repr(n as nat);
    let k = ascii_bytes("sync_interval_minutes"@);
    assert(k.len() == 21 && ascii_bytes("sync_mode"@).len() == 9 && ascii_bytes(
        "auto_sync"@,
    ).len() == 9 && ascii_bytes("conflict_resolution"@).len() == 19);
}

proof fn lemma_keyed_upload(t: Settings, n: u32)
    requires
        n <= LIMIT_MAX_KBPS,
    ensures
        spec_apply_keyed(t, ascii_bytes("upload_limit_kbps"@), dec_repr(n as nat)) == (Settings {
            upload_limit_kbps: n,
            ..t
        }),
{
    reveal_strlit("sync_mode");
    reveal_strlit("auto_sync");
    reveal_strlit("conflict_resolution");
    reveal_strlit("sync_interval");
    reveal_strlit("sync_interval_minutes");
    reveal_strlit("upload_limit");
    reveal_strlit("upload_limit_kbps");
    crate::bytes::lemma_dec_repr_digits(n as nat);
    crate::bytes::lemma_dec_value_of_repr(n as nat);
    let k = ascii_bytes("upload_limit_kbps"@);
    assert(k.len() == 17 && ascii_bytes("sync_mode"@).len() == 9 && ascii_bytes(
        "auto_sync"@,
    ).len() == 9 && ascii_bytes("conflict_resolution"@).len() == 19 && ascii_bytes(
        "sync_interval"@,
    ).len() == 13 && ascii_bytes("sync_interval_minutes"@).len() == 21);
}

proof fn lemma_keyed_download(t: Settings, n: u32)
    requires
        n <= LIMIT_MAX_KBPS,
    ensures
        spec_apply_keyed(t, ascii_bytes("download_limit_kbps"@), dec_repr(n as nat)) == (Settings {
            download_limit_kbps: n,
            ..t
        }),
{
    reveal_strlit("sync_mode");
    reveal_strlit("auto_sync");
    reveal_strlit("conflict_resolution");
    reveal_strlit("sync_interval");
    reveal_strlit("sync_interval_minutes");
    reveal_strlit("upload_limit");
    reveal_strlit("upload_limit_kbps");
    reveal_strlit("download_limit");
    reveal_strlit("download_limit_kbps");
    crate::bytes::lemma_dec_repr_digits(n as nat);
    crate::bytes::lemma_dec_value_of_repr(n as nat);
    let k = ascii_bytes("download_limit_kbps"@);
    let k2 = ascii_bytes("conflict_resolution"@);
    assert(k.len() == 19 && ascii_bytes("sync_mode"@).len() == 9 && ascii_bytes(
        "auto_sync"@,
    ).len() == 9 && ascii_bytes("sync_interval"@).len() == 13 && ascii_bytes(
        "sync_interval_minutes"@,
    ).len() == 21 && ascii_bytes("upload_limit"@).len() == 12 && ascii_bytes(
        "upload_limit_kbps"@,
    ).len() == 17);
    assert(k[0] != k2[0]);
    assert(k != k2);
}

/// The value written for each field is a nonempty bare word or digit run:
/// no whitespace or quote at either end, and no newline anywhere.
proof fn lemma_value_shape(v: Seq<u8>)
    requires
        is_digits(v) || v == ascii_bytes("automatic"@) || v == ascii_bytes("manual"@) || v
            == ascii_bytes("always_ask"@) || v == ascii_bytes("keep_local"@) || v == ascii_bytes(
            "keep_remote"@,
        ) || v == ascii_bytes("keep_both"@),
    ensures
        v.len() > 0,
        !is_ws(v[0]),
        !is_ws(v[v.len() - 1]),
        v[0] != 34,
        v[v.len() - 1] != 34,
        lacks(v, 10),
{
    reveal_strlit("automatic");
    reveal_strlit("manual");
    reveal_strlit("always_ask");
    reveal_strlit("keep_local");
    reveal_strlit("keep_remote");
    reveal_strlit("keep_both");
    if is_digits(v) {
        assert(48 <= v[0] <= 57 && 48 <= v[v.len() - 1] <= 57);
        assert(forall|j: int| 0 <= j < v.len() ==> #[trigger] v[j] != 10);
    } else {
        assert(forall|j: int| 0 <= j < v.len() ==> 95 <= #[trigger] v[j] <= 122);
    }
}

/// Law: the configuration text a write carries reads back as exactly the
/// snapshot it was rendered from, whatever the reader held before — the
/// write/read round trip through the daemon's configuration is the identity
/// for every well-formed snapshot.
#[verifier::rlimit(100)]
pub proof fn lemma_config_round_trip(s0: Settings, s: Settings)
    requires
        s.wf(),
    ensures
        spec_apply_config(s0, spec_render_config(s)) == s,
{
    reveal_strlit("sync_mode: \"");
    reveal_strlit("\"\nconflict_resolution: \"");
    reveal_strlit("\"\nsync_interval_minutes: ");
    reveal_strlit("\nupload_limit_kbps: ");
    reveal_strlit("\ndownload_limit_kbps: ");
    reveal_strlit("\n");
    reveal_strlit("sync_mode");
    reveal_strlit("conflict_resolution");
    reveal_strlit("sync_interval_minutes");
    reveal_strlit("upload_limit_kbps");
    reveal_strlit("download_limit_kbps");
    reveal_strlit("automatic");
    reveal_strlit("manual");
    reveal_strlit("always_ask");
    reveal_strlit("keep_local");
    reveal_strlit("keep_remote");
    reveal_strlit("keep_both");
    reveal_strlit(": \"");
    reveal_strlit(": ");
    reveal_strlit("\"");
    let mode = sync_mode_bytes(s.sync_mode);
    let res = resolution_bytes(s.conflict_resolution);
    let n1 = dec_repr(s.sync_interval_minutes as nat);
    let n2 = dec_repr(s.upload_limit_kbps as nat);
    let n3 = dec_repr(s.download_limit_kbps as nat);
    crate::bytes::lemma_dec_repr_digits(s.sync_interval_minutes as nat);
    crate::bytes::lemma_dec_repr_digits(s.upload_limit_kbps as nat);
    crate::bytes::lemma_dec_repr_digits(s.download_limit_kbps as nat);
    let k1 = ascii_bytes("sync_mode"@);
    let k2 = ascii_bytes("conflict_resolution"@);
    let k3 = ascii_bytes("sync_interval_minutes"@);
    let k4 = ascii_bytes("upload_limit_kbps"@);
    let k5 = ascii_bytes("download_limit_kbps"@);
    let mid = ascii_bytes(": \""@);
    let bare = ascii_bytes(": "@);
    let quote = ascii_bytes("\""@);
    let nl = seq![10u8];
    let l1 = k1 + mid + mode + quote;
    let l2 = k2 + mid + res + quote;
    let l3 = k3 + bare + n1;
    let l4 = k4 + bare + n2;
    let l5 = k5 + bare + n3;
    let rest5 = Seq::<u8>::empty();
    let rest4 = l5 + nl + rest5;
    let rest3 = l4 + nl + rest4;
    let rest2 = l3 + nl + rest3;
    let rest1 = l2 + nl + rest2;
    // the rendered text is the five lines
    assert(ascii_bytes("sync_mode: \""@) =~= k1 + mid);
    assert(ascii_bytes("\"\nconflict_resolution: \""@) =~= quote + nl + k2 + mid);
    assert(ascii_bytes("\"\nsync_interval_minutes: "@) =~= quote + nl + k3 + bare);
    assert(ascii_bytes("\nupload_limit_kbps: "@) =~= nl + k4 + bare);
    assert(ascii_bytes("\ndownload_limit_kbps: "@) =~= nl + k5 + bare);
    assert(ascii_bytes("\n"@) =~= nl);
    assert(spec_render_config(s) =~= l1 + nl + rest1);
    // no line holds a newline
    lemma_value_shape(mode);
    lemma_value_shape(res);
    lemma_value_shape(n1);
    lemma_value_shape(n2);
    lemma_value_shape(n3);
    assert(lacks(mid, 10) && lacks(bare, 10) && lacks(quote, 10));
    assert(lacks(k1, 10) && lacks(k2, 10) && lacks(k3, 10) && lacks(k4, 10) && lacks(k5, 10));
    lemma_lacks_concat(k1, mid, 10);
    lemma_lacks_concat(k1 + mid, mode, 10);
    lemma_lacks_concat(k1 + mid + mode, quote, 10);
    lemma_lacks_concat(k2, mid, 10);
    lemma_lacks_concat(k2 + mid, res, 10);
    lemma_lacks_concat(k2 + mid + res, quote, 10);
    lemma_lacks_concat(k3, bare, 10);
    lemma_lacks_concat(k3 + bare, n1, 10);
    lemma_lacks_concat(k4, bare, 10);
    lemma_lacks_concat(k4 + bare, n2, 10);
    lemma_lacks_concat(k5, bare, 10);
    lemma_lacks_concat(k5 + bare, n3, 10);
    // peel the lines off one by one
    let s1 = spec_apply_line(s0, l1);
    let s2 = spec_apply_line(s1, l2);
    let s3 = spec_apply_line(s2, l3);
    let s4 = spec_apply_line(s3, l4);
    let s5 = spec_apply_line(s4, l5);
    lemma_apply_line_prefix(s0, l1, rest1);
    lemma_apply_line_prefix(s1, l2, rest2);
    lemma_apply_line_prefix(s2, l3, rest3);
    lemma_apply_line_prefix(s3, l4, rest4);
    lemma_apply_line_prefix(s4, l5, rest5);
    assert(spec_apply_config(s5, Seq::<u8>::empty()) == s5) by {
        assert(scan(Seq::<u8>::empty(), 10, 0) == 0);
        assert(Seq::<u8>::empty().subrange(0, 0) =~= Seq::<u8>::empty());
        assert(scan(Seq::<u8>::empty(), 58, 0) == 0);
    }
    // each line restores its own field and touches nothing else
    assert(lacks(k1, 58) && lacks(k2, 58) && lacks(k3, 58) && lacks(k4, 58) && lacks(k5, 58));
    assert(k1.len() > 0 && !is_ws(k1[0]) && !is_ws(k1[k1.len() - 1]));
    assert(k2.len() > 0 && !is_ws(k2[0]) && !is_ws(k2[k2.len() - 1]));
    assert(k3.len() > 0 && !is_ws(k3[0]) && !is_ws(k3[k3.len() - 1]));
    assert(k4.len() > 0 && !is_ws(k4[0]) && !is_ws(k4[k4.len() - 1]));
    assert(k5.len() > 0 && !is_ws(k5[0]) && !is_ws(k5[k5.len() - 1]));
    lemma_keyed_line_quoted(s0, k1, mode);
    lemma_keyed_line_quoted(s1, k2, res);
    lemma_keyed_line_bare(s2, k3, n1);
    lemma_keyed_line_bare(s3, k4, n2);
    lemma_keyed_line_bare(s4, k5, n3);
    lemma_keyed_mode(s0, s.sync_mode);
    lemma_keyed_res(s1, s.conflict_resolution);
    lemma_keyed_interval(s2, s.sync_interval_minutes);
    lemma_keyed_upload(s3, s.upload_limit_kbps);
    lemma_keyed_download(s4, s.download_limit_kbps);
}

// ---------------------------------------------------------------------------
// The debounced settings writer
// ---------------------------------------------------------------------------
/// One edit to a field the debounced writer owns.
#[derive(Clone, Copy, PartialEq, Eq, Structural, Debug)]
pub enum Mutation {
    SetSyncMode(SyncMode),
    SetConflictResolution(ConflictResolution),
    SetSyncInterval(u32),
    SetUploadLimit(u32),
    SetDownloadLimit(u32),
}

/// The snapshot after one edit.  Numeric values are forced into their ranges.
pub open spec fn spec_apply_mutation(s: Settings, m: Mutation) -> Settings {
    match m {
        Mutation::SetSyncMode(v) => Settings { sync_mode: v, ..s },
        Mutation::SetConflictResolution(v) => Settings { conflict_resolution: v, ..s },
        Mutation::SetSyncInterval(v) => Settings {
            sync_interval_minutes: spec_clamp(v as int, 1, 60) as u32,
            ..s
        },
        Mutation::SetUploadLimit(v) => Settings {
            upload_limit_kbps: spec_clamp(v as int, 0, LIMIT_MAX_KBPS as int) as u32,
            ..s
        },
        Mutation::SetDownloadLimit(v) => Settings {
            download_limit_kbps: spec_clamp(v as int, 0, LIMIT_MAX_KBPS as int) as u32,
            ..s
        },
    }
}

/// The quiet period after the last edit before the write is issued, in
/// milliseconds.
pub const QUIET_PERIOD_MS: u64 = 500;

/// Batches rapid field edits into one configuration write after a quiet
/// period.  Exclusion-pattern edits bypass the timer and are written at
/// once.  Times are plain millisecond counts supplied by the caller; the
/// timer itself runs outside this crate.
pub struct DebouncedSettingsWriter {
    /// The working copy of the daemon's settings.
    pub settings: Settings,
    /// The exclusion glob patterns, in order, without duplicates.
    pub patterns: Vec<Vec<u8>>,
    /// When a write is due, the time at which the quiet period ends.
    pub deadline: Option<u64>,
}

/// True when a pending deadline has been reached at time `now`.
pub open spec fn timer_fires(deadline: Option<u64>, now: u64) -> bool {
    match deadline {
        Some(d) => now >= d,
        None => false,
    }
}

/// The writer after one timed edit: the field is updated and the quiet
/// period restarts from `now`.
pub open spec fn spec_mutate_step(
    w: DebouncedSettingsWriter,
    m: Mutation,
    now: u64,
) -> DebouncedSettingsWriter {
    DebouncedSettingsWriter {
        settings: spec_apply_mutation(w.settings, m),
        patterns: w.patterns,
        deadline: Some((now + QUIET_PERIOD_MS) as u64),
    }
}

/// What a timer poll at time `now` writes: the full current snapshot when
/// the deadline has been reached, nothing otherwise.
pub open spec fn spec_timer_write(w: DebouncedSettingsWriter, now: u64) -> Option<Seq<u8>> {
    if timer_fires(w.deadline, now) {
        Some(spec_render_config(w.settings))
    } else {
        None
    }
}

/// The writer after a timer poll at time `now`.
pub open spec fn spec_timer_state(
    w: DebouncedSettingsWriter,
    now: u64,
) -> DebouncedSettingsWriter {
    if timer_fires(w.deadline, now) {
        DebouncedSettingsWriter { deadline: None, ..w }
    } else {
        w
    }
}

/// The writer after a sequence of timed edits, oldest first.
pub open spec fn spec_apply_mutations(
    w: DebouncedSettingsWriter,
    muts: Seq<(Mutation, u64)>,
) -> DebouncedSettingsWriter
    decreases muts.len(),
{
    if muts.len() == 0 {
        w
    } else {
        spec_apply_mutations(spec_mutate_step(w, muts[0].0, muts[0].1), muts.drop_first())
    }
}

impl DebouncedSettingsWriter {
    /// No two patterns equal, and the snapshot in range.
    pub open spec fn wf(&self) -> bool {
        &&& self.settings.wf()
        &&& forall|i: int, j: int|
            0 <= i < j < self.patterns@.len() ==> self.patterns@[i]@ != self.patterns@[j]@
    }

    /// A writer seeded from the one-shot read made at controller creation.
    pub fn new(settings: Settings, patterns: Vec<Vec<u8>>) -> (r: Self)
        requires
            settings.wf(),
            forall|i: int, j: int|
                0 <= i < j < patterns@.len() ==> patterns@[i]@ != patterns@[j]@,
        ensures
            r.settings == settings,
            r.patterns == patterns,
            r.deadline is None,
            r.wf(),
    {
        DebouncedSettingsWriter { settings, patterns, deadline: None }
    }

    /// Record one field edit at time `now`: the field takes the new value
    /// and the quiet period restarts, cancelling any pending write.
    pub fn mutate(&mut self, m: Mutation, now: u64)
        requires
            old(self).wf(),
            now + QUIET_PERIOD_MS <= u64::MAX,
        ensures
            *final(self) == spec_mutate_step(*old(self), m, now),
            final(self).wf(),
    {
        let s = self.settings;
        self.settings = match m {
            Mutation::SetSyncMode(v) => Settings { sync_mode: v, ..s },
            Mutation::SetConflictResolution(v) => Settings { conflict_resolution: v, ..s },
            Mutation::SetSyncInterval(v) => Settings {
                sync_interval_minutes: clamp_u32(v, 1, 60),
                ..s
            },
            Mutation::SetUploadLimit(v) => Settings {
                upload_limit_kbps: clamp_u32(v, 0, LIMIT_MAX_KBPS),
                ..s
            },
            Mutation::SetDownloadLimit(v) => Settings {
                download_limit_kbps: clamp_u32(v, 0, LIMIT_MAX_KBPS),
                ..s
            },
        };
        self.deadline = Some(now + QUIET_PERIOD_MS);
    }

    /// Poll the debounce timer at time `now`.  When the quiet period has
    /// ended this returns the one write to issue — the full current value of
    /// every owned field — and clears the deadline; otherwise it returns
    /// nothing and changes nothing.
    pub fn on_timer(&mut self, now: u64) -> (w: Option<Vec<u8>>)
        requires
            old(self).wf(),
        ensures
            *final(self) == spec_timer_state(*old(self), now),
            match w {
                Some(v) => spec_timer_write(*old(self), now) == Some(v@),
                None => spec_timer_write(*old(self), now) is None,
            },
            final(self).wf(),
    {
        let fire = match self.deadline {
            Some(d) => now >= d,
            None => false,
        };
        if fire {
            self.deadline = None;
            Some(render_config(&self.settings))
        } else {
            None
        }
    }
}

/// The pattern list with every occurrence of `p` removed, order kept.
pub open spec fn spec_remove_pattern(s: Seq<Seq<u8>>, p: Seq<u8>) -> Seq<Seq<u8>>
    decreases s.len(),
{
    if s.len() == 0 {
        s
    } else if s[0] == p {
        spec_remove_pattern(s.drop_first(), p)
    } else {
        seq![s[0]] + spec_remove_pattern(s.drop_first(), p)
    }
}

/// Removal keeps exactly the other patterns.
pub proof fn lemma_remove_pattern_contains(s: Seq<Seq<u8>>, p: Seq<u8>, q: Seq<u8>)
    ensures
        spec_remove_pattern(s, p).contains(q) <==> (s.contains(q) && q != p),
    decreases s.len(),
{
    let r = spec_remove_pattern(s, p);
    if s.len() == 0 {
        assert(!r.contains(q));
        assert(!s.contains(q));
    } else {
        let tail = s.drop_first();
        let rt = spec_remove_pattern(tail, p);
        lemma_remove_pattern_contains(tail, p, q);
        if r.contains(q) {
            let i = choose|i: int| 0 <= i < r.len() && r[i] == q;
            if s[0] == p {
                assert(rt[i] == q);
                assert(rt.contains(q));
            } else {
                if i == 0 {
                    assert(q == s[0]);
                    assert(s.contains(q));
                } else {
                    assert(rt[i - 1] == q);
                    assert(rt.contains(q));
                }
            }
            if rt.contains(q) {
                let j = choose|j: int| 0 <= j < tail.len() && tail[j] == q;
                assert(s[j + 1] == q);
                assert(s.contains(q));
            }
            assert(s.contains(q) && q != p);
        }
        if s.contains(q) && q != p {
            let i = choose|i: int| 0 <= i < s.len() && s[i] == q;
            if i == 0 {
                assert(r[0] == q);
                assert(r.contains(q));
            } else {
                assert(tail[i - 1] == q);
                assert(tail.contains(q));
                let j = choose|j: int| 0 <= j < rt.len() && rt[j] == q;
                if s[0] == p {
                    assert(r.contains(q));
                } else {
                    assert(r[j + 1] == q);
                    assert(r.contains(q));
                }
            }
        }
    }
}

proof fn lemma_remove_pattern_distinct(s: Seq<Seq<u8>>, p: Seq<u8>)
    requires
        forall|i: int, j: int| 0 <= i < j < s.len() ==> s[i] != s[j],
    ensures
        ({
            let r = spec_remove_pattern(s, p);
            forall|i: int, j: int| 0 <= i < j < r.len() ==> r[i] != r[j]
        }),
    decreases s.len(),
{
    if s.len() > 0 {
        let tail = s.drop_first();
        let rt = spec_remove_pattern(tail, p);
        assert(forall|i: int, j: int| 0 <= i < j < tail.len() ==> tail[i] != tail[j]);
        lemma_remove_pattern_distinct(tail, p);
        if s[0] != p {
            assert forall|k: int| 0 <= k < tail.len() implies s[0] != tail[k] by {
                assert(tail[k] == s[k + 1]);
            }
            assert(!tail.contains(s[0]));
            lemma_remove_pattern_contains(tail, p, s[0]);
            assert(!rt.contains(s[0]));
            let r = spec_remove_pattern(s, p);
            assert forall|i: int, j: int| 0 <= i < j < r.len() implies r[i] != r[j] by {
                if i == 0 {
                    assert(r[j] == rt[j - 1]);
                    assert(rt.contains(rt[j - 1]));
                } else {
                    assert(r[i] == rt[i - 1] && r[j] == rt[j - 1]);
                }
            }
        }
    }
}

impl DebouncedSettingsWriter {
    /// Add an exclusion pattern, written immediately (no debounce).  The raw
    /// text is trimmed; an empty or already-present pattern changes nothing
    /// and issues no write.  Otherwise the pattern is appended and the write
    /// carrying the full new list is returned.  The pending field-write
    /// deadline is untouched.
    pub fn add_pattern(&mut self, raw: &[u8]) -> (w: Option<Vec<Vec<u8>>>)
        requires
            old(self).wf(),
        ensures
            final(self).settings == old(self).settings,
            final(self).deadline == old(self).deadline,
            ({
                let p = spec_trim(raw@);
                if p.len() == 0 || old(self).patterns.deep_view().contains(p) {
                    &&& *final(self) == *old(self)
                    &&& w is None
                } else {
                    &&& final(self).patterns.deep_view() == old(self).patterns.deep_view().push(p)
                    &&& w matches Some(l) && l.deep_view() == final(self).patterns.deep_view()
                }
            }),
            final(self).wf(),
    {
        broadcast use crate::bytes::lemma_bytes_deep_view;

        let ghost dv = self.patterns.deep_view();
        proof {
            assert(forall|k: int| 0 <= k < dv.len() ==> dv[k] == self.patterns@[k]@);
        }
        let p = trim(raw);
        if p.len() == 0 {
            return None;
        }
        let mut i: usize = 0;
        while i < self.patterns.len()
            invariant
                i <= self.patterns@.len(),
                forall|j: int| 0 <= j < i ==> self.patterns@[j]@ != p@,
                self == old(self),
                old(self).wf(),
                dv == self.patterns.deep_view(),
                forall|k: int| 0 <= k < dv.len() ==> dv[k] == self.patterns@[k]@,
                p@ == spec_trim(raw@),
            decreases self.patterns@.len() - i,
        {
            if bytes_eq(self.patterns[i].as_slice(), p.as_slice()) {
                assert(dv[i as int] == p@);
                assert(dv.contains(p@));
                return None;
            }
            i += 1;
        }
        assert(!dv.contains(p@)) by {
            assert(forall|j: int| 0 <= j < dv.len() ==> dv[j] != p@);
        }
        self.patterns.push(p);
        proof {
            assert(self.patterns.deep_view() =~= dv.push(spec_trim(raw@)));
            let ndv = self.patterns.deep_view();
            assert forall|i: int, j: int|
                0 <= i < j < self.patterns@.len() implies self.patterns@[i]@
                != self.patterns@[j]@ by {
                assert(ndv[i] == self.patterns@[i]@ && ndv[j] == self.patterns@[j]@);
                if j + 1 == self.patterns@.len() {
                    assert(ndv[i] == dv[i]);
                    assert(dv[j] == ndv[j] || true);
                    assert(ndv[j] == spec_trim(raw@));
                    assert(dv[i] != spec_trim(raw@));
                } else {
                    assert(ndv[i] == dv[i] && ndv[j] == dv[j]);
                    assert(old(self).patterns@[i]@ != old(self).patterns@[j]@);
                }
            }
        }
        let out = clone_pattern_list(&self.patterns);
        Some(out)
    }

    /// Remove a pattern by value, written immediately (no debounce).  Every
    /// occurrence of `p` leaves the list; the write carrying the full new
    /// list is always returned, as the edit is issued by a control that only
    /// exists for a present pattern.  The pending field-write deadline is
    /// untouched.
    pub fn remove_pattern(&mut self, p: &[u8]) -> (w: Vec<Vec<u8>>)
        requires
            old(self).wf(),
        ensures
            final(self).settings == old(self).settings,
            final(self).deadline == old(self).deadline,
            final(self).patterns.deep_view() == spec_remove_pattern(
                old(self).patterns.deep_view(),
                p@,
            ),
            w.deep_view() == final(self).patterns.deep_view(),
            !final(self).patterns.deep_view().contains(p@),
            final(self).wf(),
    {
        broadcast use crate::bytes::lemma_bytes_deep_view;

        let ghost dv = self.patterns.deep_view();
        proof {
            assert(forall|k: int| 0 <= k < dv.len() ==> dv[k] == self.patterns@[k]@);
        }
        let mut out: Vec<Vec<u8>> = Vec::new();
        proof {
            assert(dv.subrange(0, dv.len() as int) =~= dv);
            assert(out.deep_view() =~= Seq::<Seq<u8>>::empty());
            assert(Seq::<Seq<u8>>::empty() + spec_remove_pattern(dv, p@) =~= spec_remove_pattern(
                dv,
                p@,
            ));
        }
        let mut i: usize = 0;
        while i < self.patterns.len()
            invariant
                i <= self.patterns@.len(),
                self == old(self),
                dv == self.patterns.deep_view(),
                forall|k: int| 0 <= k < dv.len() ==> dv[k] == self.patterns@[k]@,
                spec_remove_pattern(dv, p@) == out.deep_view() + spec_remove_pattern(
                    dv.subrange(i as int, dv.len() as int),
                    p@,
                ),
            decreases self.patterns@.len() - i,
        {
            let ghost rest = dv.subrange(i as int, dv.len() as int);
            proof {
                assert(rest.drop_first() =~= dv.subrange(i + 1 as int, dv.len() as int));
                assert(rest[0] == dv[i as int]);
                assert(dv[i as int] == self.patterns@[i as int]@);
            }
            if !bytes_eq(self.patterns[i].as_slice(), p) {
                let ghost out_before = out.deep_view();
                let item = crate::bytes::bytes_of(self.patterns[i].as_slice());
                out.push(item);
                proof {
                    let tail = spec_remove_pattern(dv.subrange(i + 1 as int, dv.len() as int), p@);
                    assert(spec_remove_pattern(rest, p@) == seq![rest[0]] + tail);
                    assert(out.deep_view() =~= out_before.push(dv[i as int]));
                    assert(out_before + (seq![dv[i as int]] + tail) =~= out.deep_view() + tail);
                }
            } else {
                proof {
                    assert(spec_remove_pattern(rest, p@) == spec_remove_pattern(
                        dv.subrange(i + 1 as int, dv.len() as int),
                        p@,
                    ));
                }
            }
            i += 1;
        }
        proof {
            assert(dv.subrange(dv.len() as int, dv.len() as int) =~= Seq::<Seq<u8>>::empty());
            assert(out.deep_view() + spec_remove_pattern(
                Seq::<Seq<u8>>::empty(),
                p@,
            ) =~= out.deep_view());
            lemma_remove_pattern_contains(dv, p@, p@);
            assert forall|a: int, b: int| 0 <= a < b < dv.len() implies dv[a] != dv[b] by {
                assert(dv[a] == self.patterns@[a]@ && dv[b] == self.patterns@[b]@);
            }
            lemma_remove_pattern_distinct(dv, p@);
        }
        self.patterns = clone_pattern_list(&out);
        proof {
            let ndv = self.patterns.deep_view();
            assert forall|a: int, b: int|
                0 <= a < b < self.patterns@.len() implies self.patterns@[a]@
                != self.patterns@[b]@ by {
                assert(ndv[a] == self.patterns@[a]@ && ndv[b] == self.patterns@[b]@);
            }
        }
        out
    }
}

/// Element-wise copy of a pattern list.
fn clone_pattern_list(ps: &Vec<Vec<u8>>) -> (r: Vec<Vec<u8>>)
    ensures
        r.deep_view() == ps.deep_view(),
{
    let mut out: Vec<Vec<u8>> = Vec::new();
    let mut i: usize = 0;
    while i < ps.len()
        invariant
            i <= ps@.len(),
            out.deep_view() == ps.deep_view().subrange(0, i as int),
        decreases ps@.len() - i,
    {
        broadcast use crate::bytes::lemma_bytes_deep_view;

        let ghost before = out.deep_view();
        out.push(crate::bytes::bytes_of(ps[i].as_slice()));
        proof {
            assert(out.deep_view() =~= before.push(ps@[i as int]@));
            assert(ps.deep_view()[i as int] == ps@[i as int]@);
            assert(out.deep_view() =~= ps.deep_view().subrange(0, i + 1 as int));
        }
        i += 1;
    }
    assert(out.deep_view() =~= ps.deep_view());
    out
}

// The coalescing law
// ---------------------------------------------------------------------------
/// The last sync mode set in `ms`, or `d` when none is.
pub open spec fn last_sync_mode(d: SyncMode, ms: Seq<Mutation>) -> SyncMode
    decreases ms.len(),
{
    if ms.len() == 0 {
        d
    } else {
        match ms.last() {
            Mutation::SetSyncMode(v) => v,
            _ => last_sync_mode(d, ms.drop_last()),
        }
    }
}

/// The last resolution strategy set in `ms`, or `d` when none is.
pub open spec fn last_resolution(d: ConflictResolution, ms: Seq<Mutation>) -> ConflictResolution
    decreases ms.len(),
{
    if ms.len() == 0 {
        d
    } else {
        match ms.last() {
            Mutation::SetConflictResolution(v) => v,
            _ => last_resolution(d, ms.drop_last()),
        }
    }
}

/// The last sync interval set in `ms` (clamped), or `d` when none is.
pub open spec fn last_interval(d: u32, ms: Seq<Mutation>) -> u32
    decreases ms.len(),
{
    if ms.len() == 0 {
        d
    } else {
        match ms.last() {
            Mutation::SetSyncInterval(v) => spec_clamp(v as int, 1, 60) as u32,
            _ => last_interval(d, ms.drop_last()),
        }
    }
}

/// The last upload limit set in `ms` (clamped), or `d` when none is.
pub open spec fn last_upload(d: u32, ms: Seq<Mutation>) -> u32
    decreases ms.len(),
{
    if ms.len() == 0 {
        d
    } else {
        match ms.last() {
            Mutation::SetUploadLimit(v) => spec_clamp(v as int, 0, LIMIT_MAX_KBPS as int) as u32,
            _ => last_upload(d, ms.drop_last()),
        }
    }
}

/// The last download limit set in `ms` (clamped), or `d` when none is.
pub open spec fn last_download(d: u32, ms: Seq<Mutation>) -> u32
    decreases ms.len(),
{
    if ms.len() == 0 {
        d
    } else {
        match ms.last() {
            Mutation::SetDownloadLimit(v) => spec_clamp(v as int, 0, LIMIT_MAX_KBPS as int) as u32,
            _ => last_download(d, ms.drop_last()),
        }
    }
}

proof fn lemma_apply_mutations_snoc(w: DebouncedSettingsWriter, muts: Seq<(Mutation, u64)>)
    requires
        muts.len() > 0,
    ensures
        spec_apply_mutations(w, muts) == spec_mutate_step(
            spec_apply_mutations(w, muts.drop_last()),
            muts.last().0,
            muts.last().1,
        ),
    decreases muts.len(),
{
    if muts.len() == 1 {
        let w1 = spec_mutate_step(w, muts[0].0, muts[0].1);
        assert(muts.drop_last() =~= Seq::<(Mutation, u64)>::empty());
        assert(muts.drop_first() =~= Seq::<(Mutation, u64)>::empty());
        assert(spec_apply_mutations(w, muts) == spec_apply_mutations(w1, muts.drop_first()));
        assert(spec_apply_mutations(w1, muts.drop_first()) == w1);
        assert(spec_apply_mutations(w, muts.drop_last()) == w);
        assert(muts.last() == muts[0]);
    } else {
        let w1 = spec_mutate_step(w, muts[0].0, muts[0].1);
        lemma_apply_mutations_snoc(w1, muts.drop_first());
        assert(muts.drop_first().drop_last() =~= muts.drop_last().drop_first());
        assert(muts.drop_first().last() == muts.last());
        assert(muts.drop_last()[0] == muts[0]);
        assert(spec_apply_mutations(w, muts) == spec_apply_mutations(w1, muts.drop_first()));
        assert(spec_apply_mutations(w1, muts.drop_first()) == spec_mutate_step(
            spec_apply_mutations(w1, muts.drop_first().drop_last()),
            muts.last().0,
            muts.last().1,
        ));
        assert(spec_apply_mutations(w, muts.drop_last()) == spec_apply_mutations(
            w1,
            muts.drop_last().drop_first(),
        ));
    }
}

proof fn lemma_fold_fields(w: DebouncedSettingsWriter, muts: Seq<(Mutation, u64)>)
    ensures
        ({
            let s1 = spec_apply_mutations(w, muts).settings;
            let ms = muts.map_values(|p: (Mutation, u64)| p.0);
            &&& s1.sync_mode == last_sync_mode(w.settings.sync_mode, ms)
            &&& s1.conflict_resolution == last_resolution(w.settings.conflict_resolution, ms)
            &&& s1.sync_interval_minutes == last_interval(w.settings.sync_interval_minutes, ms)
            &&& s1.upload_limit_kbps == last_upload(w.settings.upload_limit_kbps, ms)
            &&& s1.download_limit_kbps == last_download(w.settings.download_limit_kbps, ms)
        }),
    decreases muts.len(),
{
    let ms = muts.map_values(|p: (Mutation, u64)| p.0);
    if muts.len() > 0 {
        lemma_apply_mutations_snoc(w, muts);
        lemma_fold_fields(w, muts.drop_last());
        assert(muts.drop_last().map_values(|p: (Mutation, u64)| p.0) =~= ms.drop_last());
        assert(ms.last() == muts.last().0);
    }
}

proof fn lemma_fold_deadline(w: DebouncedSettingsWriter, muts: Seq<(Mutation, u64)>)
    requires
        muts.len() > 0,
        muts.last().1 + QUIET_PERIOD_MS <= u64::MAX,
    ensures
        spec_apply_mutations(w, muts).deadline == Some(
            (muts.last().1 + QUIET_PERIOD_MS) as u64,
        ),
        spec_apply_mutations(w, muts).patterns == w.patterns,
{
    lemma_apply_mutations_snoc(w, muts);
    lemma_fold_patterns(w, muts.drop_last());
}

proof fn lemma_fold_patterns(w: DebouncedSettingsWriter, muts: Seq<(Mutation, u64)>)
    ensures
        spec_apply_mutations(w, muts).patterns == w.patterns,
    decreases muts.len(),
{
    if muts.len() > 0 {
        lemma_fold_patterns(spec_mutate_step(w, muts[0].0, muts[0].1), muts.drop_first());
    }
}

/// Law: for every sequence of debounced edits arriving within one quiet
/// window, exactly one write is issued, and it carries the last value set
/// for each field (or the prior value, for fields no edit touched).
///
/// After the edits the deadline is the last edit's time plus the quiet
/// period — each edit restarts the timer rather than queueing a write; every
/// prefix of the sequence leaves the deadline at its own last edit.  A timer
/// poll before the deadline writes nothing.  The poll that reaches it writes
/// the full snapshot once, and any later poll writes nothing more.
pub proof fn lemma_debounce_coalesces(
    w0: DebouncedSettingsWriter,
    muts: Seq<(Mutation, u64)>,
    t: u64,
    u: u64,
)
    requires
        muts.len() > 0,
        forall|i: int| 0 <= i < muts.len() ==> (#[trigger] muts[i].1) + QUIET_PERIOD_MS
            <= u64::MAX,
        t >= muts.last().1 + QUIET_PERIOD_MS,
    ensures
        ({
            let w1 = spec_apply_mutations(w0, muts);
            &&& w1.deadline == Some((muts.last().1 + QUIET_PERIOD_MS) as u64)
            &&& forall|i: int|
                0 <= i < muts.len() ==> #[trigger] spec_apply_mutations(
                    w0,
                    muts.take(i + 1),
                ).deadline == Some((muts[i].1 + QUIET_PERIOD_MS) as u64)
            &&& u < muts.last().1 + QUIET_PERIOD_MS ==> spec_timer_write(w1, u) is None
            &&& spec_timer_write(w1, t) == Some(spec_render_config(w1.settings))
            &&& spec_timer_write(spec_timer_state(w1, t), u) is None
            &&& w1.settings.sync_mode == last_sync_mode(
                w0.settings.sync_mode,
                muts.map_values(|p: (Mutation, u64)| p.0),
            )
            &&& w1.settings.conflict_resolution == last_resolution(
                w0.settings.conflict_resolution,
                muts.map_values(|p: (Mutation, u64)| p.0),
            )
            &&& w1.settings.sync_interval_minutes == last_interval(
                w0.settings.sync_interval_minutes,
                muts.map_values(|p: (Mutation, u64)| p.0),
            )
            &&& w1.settings.upload_limit_kbps == last_upload(
                w0.settings.upload_limit_kbps,
                muts.map_values(|p: (Mutation, u64)| p.0),
            )
            &&& w1.settings.download_limit_kbps == last_download(
                w0.settings.download_limit_kbps,
                muts.map_values(|p: (Mutation, u64)| p.0),
            )
        }),
{
    lemma_fold_deadline(w0, muts);
    lemma_fold_fields(w0, muts);
    assert forall|i: int| 0 <= i < muts.len() implies #[trigger] spec_apply_mutations(
        w0,
        muts.take(i + 1),
    ).deadline == Some((muts[i].1 + QUIET_PERIOD_MS) as u64) by {
        let pre = muts.take(i + 1);
        assert(pre.last() == muts[i]);
        lemma_fold_deadline(w0, pre);
    }
}

} // verus!
