//! The live conflict store.
//!
//! Holds the set of unresolved conflicts, replaced wholesale by every
//! refresh.  Change signals — a conflict detected or resolved, merged from
//! both streams into one "something changed" trigger — are coalesced: at
//! most one refresh is in flight, with at most one more queued while it
//! runs.  The surrounding process performs the refresh call itself and feeds
//! the outcome back in.

use vstd::prelude::*;

use crate::bytes::ascii_bytes;
use crate::bytes::str_bytes;
use crate::error::DbusError;
use crate::json::spec_as_u64;
use crate::json::spec_parse_json;
use crate::json::spec_lookup;
use crate::json::spec_str_field;
use crate::json::Json;
use crate::json::JsonV;

verus! {

/// One unresolved conflict as the daemon reports it: an identifier, the item
/// it concerns, and the two version descriptors that diverged.
pub struct ConflictInfo {
    pub id: Vec<u8>,
    pub item_id: Vec<u8>,
    pub item_path: Vec<u8>,
    pub detected_at: Vec<u8>,
    pub local_hash: Vec<u8>,
    pub local_size: u64,
    pub local_modified: Vec<u8>,
    pub remote_hash: Vec<u8>,
    pub remote_size: u64,
    pub remote_modified: Vec<u8>,
}

/// The largest index in `s` holding `c`, or -1 when none does.
pub open spec fn rscan(s: Seq<u8>, c: u8) -> int
    decreases s.len(),
{
    if s.len() == 0 {
        -1
    } else if s.last() == c {
        s.len() - 1
    } else {
        rscan(s.drop_last(), c)
    }
}

pub proof fn lemma_rscan_bounds(s: Seq<u8>, c: u8)
    ensures
        -1 <= rscan(s, c) < s.len(),
        rscan(s, c) >= 0 ==> s[rscan(s, c)] == c,
        forall|j: int| rscan(s, c) < j < s.len() ==> s[j] != c,
    decreases s.len(),
{
    if s.len() > 0 && s.last() != c {
        lemma_rscan_bounds(s.drop_last(), c);
        assert(forall|j: int| 0 <= j < s.len() - 1 ==> s[j] == s.drop_last()[j]);
    }
}

/// The suffix of `s` after the last occurrence of `c`; all of `s` when `c`
/// does not occur.
pub open spec fn suffix_after_last(s: Seq<u8>, c: u8) -> Seq<u8> {
    s.subrange(rscan(s, c) + 1, s.len() as int)
}

/// Exec mirror of [`suffix_after_last`].
fn suffix_after_last_exec(s: &[u8], c: u8) -> (r: Vec<u8>)
    ensures
        r@ == suffix_after_last(s@, c),
{
    proof {
        lemma_rscan_bounds(s@, c);
    }
    let mut i: usize = s.len();
    while i > 0
        invariant
            i <= s@.len(),
            forall|j: int| i <= j < s@.len() ==> s@[j] != c,
        decreases i,
    {
        if s[i - 1] == c {
            proof {
                lemma_rscan_bounds(s@, c);
                assert(rscan(s@, c) == i - 1);
            }
            return crate::bytes::bytes_range(s, i, s.len());
        }
        i -= 1;
    }
    proof {
        assert(rscan(s@, c) == -1);
    }
    crate::bytes::bytes_range(s, 0, s.len())
}

impl ConflictInfo {
    /// The last path component of the conflicted item, shown as its name.
    pub fn filename(&self) -> (r: Vec<u8>)
        ensures
            r@ == suffix_after_last(self.item_path@, 47),
    {
        suffix_after_last_exec(self.item_path.as_slice(), 47)
    }

    /// The suffix of the path after its last dot — the whole path when it
    /// has no dot, matching how a trailing path component without an
    /// extension is grouped.
    pub fn extension(&self) -> (r: Vec<u8>)
        ensures
            r@ == suffix_after_last(self.item_path@, 46),
    {
        suffix_after_last_exec(self.item_path.as_slice(), 46)
    }
}

/// The mathematical form of a conflict record.
pub struct ConflictV {
    pub id: Seq<u8>,
    pub item_id: Seq<u8>,
    pub item_path: Seq<u8>,
    pub detected_at: Seq<u8>,
    pub local_hash: Seq<u8>,
    pub local_size: u64,
    pub local_modified: Seq<u8>,
    pub remote_hash: Seq<u8>,
    pub remote_size: u64,
    pub remote_modified: Seq<u8>,
}

impl ConflictInfo {
    /// The mathematical form of this record.
    pub open spec fn cv(&self) -> ConflictV {
        ConflictV {
            id: self.id@,
            item_id: self.item_id@,
            item_path: self.item_path@,
            detected_at: self.detected_at@,
            local_hash: self.local_hash@,
            local_size: self.local_size,
            local_modified: self.local_modified@,
            remote_hash: self.remote_hash@,
            remote_size: self.remote_size,
            remote_modified: self.remote_modified@,
        }
    }
}

/// The mathematical form of a record list.
pub open spec fn conflicts_cv(s: Seq<ConflictInfo>) -> Seq<ConflictV> {
    Seq::new(s.len(), |k: int| s[k].cv())
}

/// A string field of the version object named `vkey`; empty when the
/// version, the field, or its string form is missing.
pub open spec fn spec_version_str(v: JsonV, vkey: Seq<u8>, field: Seq<u8>) -> Seq<u8> {
    match spec_lookup(v, vkey) {
        Some(inner) => match spec_str_field(inner, field) {
            Some(s) => s,
            None => Seq::empty(),
        },
        None => Seq::empty(),
    }
}

/// The size of the version object named `vkey`; zero when missing or not a
/// plain integer.
pub open spec fn spec_version_size(v: JsonV, vkey: Seq<u8>) -> u64 {
    match spec_lookup(v, vkey) {
        Some(inner) => match spec_lookup(inner, ascii_bytes("size_bytes"@)) {
            Some(x) => match spec_as_u64(x) {
                Some(n) => n,
                None => 0,
            },
            None => 0,
        },
        None => 0,
    }
}

/// What one JSON value reads as: a record exactly when `id`, `item_id` and
/// `detected_at` are present as strings.  A missing or non-string
/// `item_path` reads as `unknown`; missing version parts read as empty
/// strings and zero sizes.
pub open spec fn spec_conflict_of(v: JsonV) -> Option<ConflictV> {
    if spec_str_field(v, ascii_bytes("id"@)) is Some && spec_str_field(v, ascii_bytes("item_id"@))
        is Some && spec_str_field(v, ascii_bytes("detected_at"@)) is Some {
        Some(
            ConflictV {
                id: spec_str_field(v, ascii_bytes("id"@)).unwrap(),
                item_id: spec_str_field(v, ascii_bytes("item_id"@)).unwrap(),
                item_path: match spec_str_field(v, ascii_bytes("item_path"@)) {
                    Some(p) => p,
                    None => ascii_bytes("unknown"@),
                },
                detected_at: spec_str_field(v, ascii_bytes("detected_at"@)).unwrap(),
                local_hash: spec_version_str(v, ascii_bytes("local_version"@), ascii_bytes("hash"@)),
                local_size: spec_version_size(v, ascii_bytes("local_version"@)),
                local_modified: spec_version_str(
                    v,
                    ascii_bytes("local_version"@),
                    ascii_bytes("modified_at"@),
                ),
                remote_hash: spec_version_str(
                    v,
                    ascii_bytes("remote_version"@),
                    ascii_bytes("hash"@),
                ),
                remote_size: spec_version_size(v, ascii_bytes("remote_version"@)),
                remote_modified: spec_version_str(
                    v,
                    ascii_bytes("remote_version"@),
                    ascii_bytes("modified_at"@),
                ),
            },
        )
    } else {
        None
    }
}

/// The records read from a list of JSON values, values that are not records
/// left out.
pub open spec fn spec_conflicts_of_items(items: Seq<JsonV>) -> Seq<ConflictV>
    decreases items.len(),
{
    if items.len() == 0 {
        Seq::empty()
    } else {
        match spec_conflict_of(items[0]) {
            Some(c) => seq![c] + spec_conflicts_of_items(items.drop_first()),
            None => spec_conflicts_of_items(items.drop_first()),
        }
    }
}

/// The records a whole text reads as: the readable records of its array, or
/// none at all when the text is not a JSON array.
pub open spec fn spec_conflicts_of_text(s: Seq<u8>) -> Seq<ConflictV> {
    match spec_parse_json(s) {
        Some(JsonV::Arr(items)) => spec_conflicts_of_items(items),
        _ => Seq::empty(),
    }
}

/// A string field of a version object of `v`.
fn version_str(v: &Json, vkey: &[u8], field: &[u8]) -> (r: Vec<u8>)
    ensures
        r@ == spec_version_str(v@, vkey@, field@),
{
    match v.get(vkey) {
        Some(inner) => match inner.str_field(field) {
            Some(s) => s,
            None => Vec::new(),
        },
        None => Vec::new(),
    }
}

/// The size field of a version object of `v`.
fn version_size(v: &Json, vkey: &[u8]) -> (r: u64)
    ensures
        r == spec_version_size(v@, vkey@),
{
    proof {
        reveal_strlit("size_bytes");
    }
    match v.get(vkey) {
        Some(inner) => match inner.get(str_bytes("size_bytes").as_slice()) {
            Some(x) => match x.as_u64() {
                Some(n) => n,
                None => 0,
            },
            None => 0,
        },
        None => 0,
    }
}

impl ConflictInfo {
    /// Read one conflict record out of a parsed JSON value; see
    /// [`spec_conflict_of`].
    pub fn from_json(v: &Json) -> (r: Option<ConflictInfo>)
        ensures
            match r {
                Some(c) => spec_conflict_of(v@) == Some(c.cv()),
                None => spec_conflict_of(v@) is None,
            },
    {
        proof {
            reveal_strlit("id");
            reveal_strlit("item_id");
            reveal_strlit("item_path");
            reveal_strlit("detected_at");
            reveal_strlit("local_version");
            reveal_strlit("remote_version");
            reveal_strlit("hash");
            reveal_strlit("modified_at");
            reveal_strlit("unknown");
        }
        let id = match v.str_field(str_bytes("id").as_slice()) {
            Some(x) => x,
            None => {
                return None;
            },
        };
        let item_id = match v.str_field(str_bytes("item_id").as_slice()) {
            Some(x) => x,
            None => {
                return None;
            },
        };
        let detected_at = match v.str_field(str_bytes("detected_at").as_slice()) {
            Some(x) => x,
            None => {
                return None;
            },
        };
        let item_path = match v.str_field(str_bytes("item_path").as_slice()) {
            Some(x) => x,
            None => str_bytes("unknown"),
        };
        let lk = str_bytes("local_version");
        let rk = str_bytes("remote_version");
        Some(
            ConflictInfo {
                id,
                item_id,
                item_path,
                detected_at,
                local_hash: version_str(v, lk.as_slice(), str_bytes("hash").as_slice()),
                local_size: version_size(v, lk.as_slice()),
                local_modified: version_str(v, lk.as_slice(), str_bytes("modified_at").as_slice()),
                remote_hash: version_str(v, rk.as_slice(), str_bytes("hash").as_slice()),
                remote_size: version_size(v, rk.as_slice()),
                remote_modified: version_str(v, rk.as_slice(), str_bytes("modified_at").as_slice()),
            },
        )
    }

    /// Read the daemon's conflict-list text: every readable record of the
    /// JSON array, in order; an unparsable text or one that is no array
    /// reads as no records at all.
    pub fn from_json_array(bytes: &[u8]) -> (r: Vec<ConflictInfo>)
        ensures
            conflicts_cv(r@) == spec_conflicts_of_text(bytes@),
    {
        let parsed = match crate::json::parse_json(bytes) {
            Some(p) => p,
            None => {
                let empty: Vec<ConflictInfo> = Vec::new();
                assert(conflicts_cv(empty@) =~= Seq::<ConflictV>::empty());
                return empty;
            },
        };
        let items: &Vec<Json> = match &parsed {
            Json::Arr(items) => items,
            _ => {
                let empty: Vec<ConflictInfo> = Vec::new();
                assert(conflicts_cv(empty@) =~= Seq::<ConflictV>::empty());
                return empty;
            },
        };
        proof {
            crate::json::lemma_arr_view(items);
        }
        let ghost iv = crate::json::items_view(items@);
        let mut out: Vec<ConflictInfo> = Vec::new();
        proof {
            assert(iv.subrange(0, iv.len() as int) =~= iv);
            assert(conflicts_cv(out@) =~= Seq::<ConflictV>::empty());
            assert(Seq::<ConflictV>::empty() + spec_conflicts_of_items(iv)
                =~= spec_conflicts_of_items(iv));
        }
        let mut k: usize = 0;
        while k < items.len()
            invariant
                k <= items@.len(),
                iv == crate::json::items_view(items@),
                spec_conflicts_of_items(iv) == conflicts_cv(out@) + spec_conflicts_of_items(
                    iv.subrange(k as int, iv.len() as int),
                ),
            decreases items@.len() - k,
        {
            proof {
                let rest = iv.subrange(k as int, iv.len() as int);
                assert(rest[0] == iv[k as int]);
                assert(iv[k as int] == items@[k as int]@);
                assert(rest.drop_first() =~= iv.subrange(k + 1 as int, iv.len() as int));
            }
            match ConflictInfo::from_json(&items[k]) {
                Some(c) => {
                    let ghost prior = conflicts_cv(out@);
                    let ghost cval = c.cv();
                    out.push(c);
                    proof {
                        assert(conflicts_cv(out@) =~= prior.push(cval));
                        let tail = spec_conflicts_of_items(
                            iv.subrange(k + 1 as int, iv.len() as int),
                        );
                        assert(prior + (seq![cval] + tail) =~= conflicts_cv(out@) + tail);
                    }
                },
                None => {},
            }
            k += 1;
        }
        proof {
            assert(iv.subrange(iv.len() as int, iv.len() as int) =~= Seq::<JsonV>::empty());
            assert(conflicts_cv(out@) + spec_conflicts_of_items(Seq::<JsonV>::empty())
                =~= conflicts_cv(out@));
        }
        out
    }
}

/// A strategy accepted by the daemon's resolve calls.
#[derive(Clone, Copy, PartialEq, Eq, Structural, Debug)]
pub enum ResolveStrategy {
    KeepLocal,
    KeepRemote,
    KeepBoth,
}

/// The wire form of a resolve strategy.
pub open spec fn spec_strategy_bytes(s: ResolveStrategy) -> Seq<u8> {
    match s {
        ResolveStrategy::KeepLocal => ascii_bytes("keep_local"@),
        ResolveStrategy::KeepRemote => ascii_bytes("keep_remote"@),
        ResolveStrategy::KeepBoth => ascii_bytes("keep_both"@),
    }
}

impl ResolveStrategy {
    /// The string handed to the daemon's resolve calls.
    pub fn wire_bytes(&self) -> (r: Vec<u8>)
        ensures
            r@ == spec_strategy_bytes(*self),
    {
        proof {
            reveal_strlit("keep_local");
            reveal_strlit("keep_remote");
            reveal_strlit("keep_both");
        }
        match self {
            ResolveStrategy::KeepLocal => str_bytes("keep_local"),
            ResolveStrategy::KeepRemote => str_bytes("keep_remote"),
            ResolveStrategy::KeepBoth => str_bytes("keep_both"),
        }
    }
}

/// What to do after a single-conflict resolve call returns.
#[derive(Clone, Copy, PartialEq, Eq, Structural, Debug)]
pub enum ResolveOutcome {
    /// The daemon accepted: the record will disappear on the next refresh or
    /// via a resolved notification; the detail view closes.
    Accepted,
    /// The daemon answered `false`: the record remains and the refusal is
    /// reported, not swallowed.
    DaemonRefused,
    /// The call failed; the record remains and the error is reported.
    CallFailed,
}

/// The decision after a `resolve(id, strategy)` call: accepted exactly on
/// `Ok(true)`, refused exactly on `Ok(false)`, failed exactly on an error.
pub fn on_resolve_one_result(result: &Result<bool, DbusError>) -> (a: ResolveOutcome)
    ensures
        a == ResolveOutcome::Accepted <==> result == Ok::<bool, DbusError>(true),
        a == ResolveOutcome::DaemonRefused <==> result == Ok::<bool, DbusError>(false),
        a == ResolveOutcome::CallFailed <==> result is Err,
{
    match result {
        Ok(true) => ResolveOutcome::Accepted,
        Ok(false) => ResolveOutcome::DaemonRefused,
        Err(_) => ResolveOutcome::CallFailed,
    }
}

// ---------------------------------------------------------------------------
// The store and its refresh coalescing
// ---------------------------------------------------------------------------
/// The live conflict set and the state of its refresh machinery.
pub struct ConflictStore {
    /// The unresolved conflicts as of the last completed refresh.
    pub conflicts: Vec<ConflictInfo>,
    /// A refresh call is outstanding.
    pub refresh_in_flight: bool,
    /// At least one change signal arrived while it was; one follow-up
    /// refresh (never more) runs when it completes.
    pub refresh_queued: bool,
}

/// The store and start-decision after a refresh request: when none is in
/// flight one starts, otherwise one follow-up is queued.
pub open spec fn spec_request_step(s: ConflictStore) -> (ConflictStore, bool) {
    if s.refresh_in_flight {
        (ConflictStore { refresh_queued: true, ..s }, false)
    } else {
        (ConflictStore { refresh_in_flight: true, ..s }, true)
    }
}

/// The store's flags and restart-decision after a refresh completes: the
/// queued follow-up (if any) starts at once and the queue empties.
pub open spec fn spec_complete_flags(s: ConflictStore) -> (ConflictStore, bool) {
    (
        ConflictStore {
            refresh_in_flight: s.refresh_queued,
            refresh_queued: false,
            ..s
        },
        s.refresh_queued,
    )
}

/// The whole store after a refresh completes with `fetched`: the set is
/// replaced wholesale and the flags advance as in [`spec_complete_flags`].
pub open spec fn spec_complete_with(s: ConflictStore, fetched: Vec<ConflictInfo>) -> ConflictStore {
    ConflictStore { conflicts: fetched, ..spec_complete_flags(s).0 }
}

impl ConflictStore {
    /// An empty store with no refresh outstanding.
    pub fn new() -> (r: ConflictStore)
        ensures
            r.conflicts@.len() == 0,
            !r.refresh_in_flight,
            !r.refresh_queued,
    {
        ConflictStore { conflicts: Vec::new(), refresh_in_flight: false, refresh_queued: false }
    }

    /// Ask for a refresh — on demand, or because a conflict-detected or
    /// conflict-resolved signal arrived.  Returns whether the caller should
    /// start the fetch now: it should unless one is already in flight, in
    /// which case a single follow-up is queued instead, however many signals
    /// arrive.
    pub fn request_refresh(&mut self) -> (start: bool)
        ensures
            *final(self) == spec_request_step(*old(self)).0,
            start == spec_request_step(*old(self)).1,
            final(self).conflicts == old(self).conflicts,
    {
        if self.refresh_in_flight {
            self.refresh_queued = true;
            false
        } else {
            self.refresh_in_flight = true;
            true
        }
    }

    /// A refresh finished.  The live set is replaced wholesale: with the
    /// fetched records on success, with the empty set on failure — stale
    /// data is never retained, and the caller surfaces the failure it
    /// already holds.  Returns whether the queued follow-up refresh should
    /// start now.
    pub fn on_refresh_result(&mut self, result: Option<Vec<ConflictInfo>>) -> (restart: bool)
        requires
            old(self).refresh_in_flight,
        ensures
            restart == spec_complete_flags(*old(self)).1,
            final(self).refresh_in_flight == spec_complete_flags(
                *old(self),
            ).0.refresh_in_flight,
            final(self).refresh_queued == spec_complete_flags(*old(self)).0.refresh_queued,
            match result {
                Some(v) => *final(self) == spec_complete_with(*old(self), v),
                None => final(self).conflicts@.len() == 0,
            },
    {
        self.conflicts = match result {
            Some(v) => v,
            None => Vec::new(),
        };
        let restart = self.refresh_queued;
        self.refresh_in_flight = restart;
        self.refresh_queued = false;
        restart
    }

    /// How many conflicts are live.
    pub fn len(&self) -> (n: usize)
        ensures
            n == self.conflicts@.len(),
    {
        self.conflicts.len()
    }

    /// The decision after a `resolveAll` call returns: a refresh is
    /// requested exactly when the call came back with a count — zero
    /// included, a count is never an error — and not when it failed, whose
    /// message the caller surfaces instead.
    pub fn should_refresh_after_resolve_all(&self, result: &Result<u32, DbusError>) -> (r: bool)
        ensures
            r == (result is Ok),
    {
        match result {
            Ok(_) => true,
            Err(_) => false,
        }
    }
}

// ---------------------------------------------------------------------------
// Coalescing and replacement laws
// ---------------------------------------------------------------------------
/// Law: any burst of change signals during one in-flight refresh causes
/// exactly one follow-up refresh.  From an idle store, the first request
/// starts a fetch; the two signals that arrive while it runs start nothing
/// and only mark the queue; its completion starts exactly one follow-up; and
/// the follow-up's completion starts nothing, leaving the store idle.
pub proof fn lemma_signal_burst_coalesces(s: ConflictStore)
    requires
        !s.refresh_in_flight,
        !s.refresh_queued,
    ensures
        ({
            let (s1, start1) = spec_request_step(s);
            let (s2, start2) = spec_request_step(s1);
            let (s3, start3) = spec_request_step(s2);
            let (s4, restart1) = spec_complete_flags(s3);
            let (s5, restart2) = spec_complete_flags(s4);
            &&& start1
            &&& !start2
            &&& !start3
            &&& restart1
            &&& !restart2
            &&& !s5.refresh_in_flight
            &&& !s5.refresh_queued
        }),
{
}

/// Law: once the refresh that follows a completed `resolveAll` returns, the
/// live set is exactly the refreshed set — every identifier the daemon
/// dropped is gone, whatever the set held before.  A count of zero is a
/// valid completion, never an error, and requests the refresh all the same.
pub proof fn lemma_resolve_all_replaces_set(
    s: ConflictStore,
    result: Result<u32, DbusError>,
    fetched: Vec<ConflictInfo>,
)
    requires
        result is Ok,
    ensures
        ({
            // the completed call requests a refresh; once that refresh
            // completes with the daemon's current set, nothing else remains
            let (s1, _started) = spec_request_step(s);
            let s2 = spec_complete_with(s1, fetched);
            &&& s2.conflicts == fetched
            &&& forall|q: ConflictInfo|
                s.conflicts@.contains(q) && !fetched@.contains(q) ==> !s2.conflicts@.contains(q)
        }),
{
}

} // verus!
