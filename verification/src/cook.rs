//! Fan-out of a parsed diff into intents.
//!
//! For each authority-bearing surface a diff touches, build a `Bind`
//! intent that cites the diff itself, by content hash, as caller-asserted
//! evidence. Without an explicit human confirmation a kernel denies such an
//! intent, which is the intended outcome for unauthorised identity and
//! attribution changes. Nothing here decides admissibility.

use vstd::prelude::*;
use crate::clock::{chrono_utc_format, format_utc, since_unix_epoch, stamp_format, system_time_now, whole_secs};
use crate::diff::{keys_sorted, ChangeLog, FileChanges, ParsedDiff};
use crate::order::seq_lt;
use crate::digest::{changes_hash, hash_changes};
use crate::intent::{
    ActorStanding, ClaimedBasis, Evidence, EvidenceKind, Intent, OperationClass, Precedence,
    PrecedenceResolution, Provenance, Revocation, StandingClass, ValidityStatus,
};
use crate::surfaces::{classify_path, path_surface, AuthoritySurface};
use crate::text::{chars_of, has_prefix, range_equals, seq_starts_with};

verus! {

/// Who is acting, with what standing, and the rule they cite.
pub struct CookOpts<'a> {
    pub actor: &'a str,
    pub standing: StandingClass,
    pub because: &'a str,
}

/// One intent, with the surface and file it concerns.
#[derive(Debug, Clone)]
pub struct CookedIntent {
    pub surface: AuthoritySurface,
    pub path: String,
    /// The part of the surface that the change touches (such as
    /// `copyright_holder` for a LICENSE hunk that swaps its copyright line);
    /// `None` when only the file as a whole is touched.
    pub sub_target: Option<String>,
    pub intent: Intent,
}

/// Why no intents could be cooked.
#[derive(Debug, Clone, Copy, PartialEq, Eq, Structural)]
pub enum CookError {
    /// The system clock reads before the Unix epoch, or more seconds after
    /// it than an `i64` holds.
    ClockUnreadable,
    /// The clock read a time that, or an hour after which, cannot be
    /// rendered as a timestamp; `reading` is what it read, in seconds since
    /// the Unix epoch.
    ClockOutOfRange { reading: i64 },
}

/// The view of an optional string.
pub open spec fn opt_view(s: Option<String>) -> Option<Seq<char>> {
    match s {
        Some(t) => Some(t@),
        None => None,
    }
}

/// The characters that `char::is_whitespace` accepts: Unicode White_Space.
pub open spec fn is_unicode_whitespace(c: char) -> bool {
    let n = c as int;
    ||| 9 <= n <= 13
    ||| n == 0x20
    ||| n == 0x85
    ||| n == 0xA0
    ||| n == 0x1680
    ||| 0x2000 <= n <= 0x200A
    ||| n == 0x2028
    ||| n == 0x2029
    ||| n == 0x202F
    ||| n == 0x205F
    ||| n == 0x3000
}

/// `s` without its leading whitespace.
pub open spec fn trim_start(s: Seq<char>) -> Seq<char>
    decreases s.len(),
{
    if s.len() > 0 && is_unicode_whitespace(s[0]) {
        trim_start(s.drop_first())
    } else {
        s
    }
}

/// A line that states a copyright: after leading whitespace it begins with
/// `Copyright`, `(c)`, `(C)` or the copyright sign.
pub open spec fn is_copyright_text(line: Seq<char>) -> bool {
    let t = trim_start(line);
    ||| seq_starts_with(t, "Copyright"@)
    ||| seq_starts_with(t, "(c)"@)
    ||| seq_starts_with(t, "(C)"@)
    ||| seq_starts_with(t, "\u{00A9}"@)
}

/// Some line of `lines` states a copyright.
pub open spec fn has_copyright_line(lines: Seq<Seq<char>>) -> bool {
    exists|i: int| 0 <= i < lines.len() && is_copyright_text(#[trigger] lines[i])
}

/// The name of the sub-target for a swapped copyright holder.
pub open spec fn copyright_holder_name() -> Seq<char> {
    "copyright_holder"@
}

/// The part of a surface that a change touches: a LICENSE change that
/// both removes and adds a copyright line swaps the copyright holder.
pub open spec fn sub_target_of(surface: AuthoritySurface, log: ChangeLog) -> Option<Seq<char>> {
    if surface == AuthoritySurface::License && has_copyright_line(log.removed)
        && has_copyright_line(log.added) {
        Some(copyright_holder_name())
    } else {
        None
    }
}

/// The action an intent on a surface names.
pub open spec fn action_name(surface: AuthoritySurface) -> Seq<char> {
    match surface {
        AuthoritySurface::License => "diff.license_mutation"@,
        AuthoritySurface::Notice => "diff.notice_mutation"@,
        AuthoritySurface::Codeowners => "diff.codeowners_mutation"@,
        AuthoritySurface::SecurityPolicy => "diff.security_policy_mutation"@,
    }
}

/// What an intent on a surface says it will do.
pub open spec fn effect_text(surface: AuthoritySurface, sub: Option<Seq<char>>) -> Seq<char> {
    match surface {
        AuthoritySurface::License => if sub == Some(copyright_holder_name()) {
            "mutate LICENSE copyright holder"@
        } else {
            "mutate LICENSE contents"@
        },
        AuthoritySurface::Notice => "mutate NOTICE contents"@,
        AuthoritySurface::Codeowners => "mutate CODEOWNERS"@,
        AuthoritySurface::SecurityPolicy => "mutate SECURITY policy"@,
    }
}

/// The target of an intent: the path, and `:` and the sub-target if any.
pub open spec fn target_text(path: Seq<char>, sub: Option<Seq<char>>) -> Seq<char> {
    match sub {
        Some(s) => path + ":"@ + s,
        None => path,
    }
}

/// The reference of the evidence for a file's changes.
pub open spec fn evidence_reference(path: Seq<char>, log: ChangeLog) -> Seq<char> {
    "diff://"@ + path + "#sha256:"@ + changes_hash(log)
}

/// The name that intents give as the issuer of their evidence.
pub open spec fn issuer_name() -> Seq<char> {
    "wicket-guard"@
}

/// `e` is the content-hash evidence of a file's changes, asserted by
/// `actor`, valid from `now` until `until`.
pub open spec fn evidence_holds(
    e: Evidence,
    path: Seq<char>,
    log: ChangeLog,
    actor: Seq<char>,
    now: Seq<char>,
    until: Seq<char>,
) -> bool {
    &&& e.reference@ == evidence_reference(path, log)
    &&& e.kind == EvidenceKind::FileHash
    &&& e.issuer@ == issuer_name()
    &&& e.subject@ == actor
    &&& e.valid_from@ == now
    &&& e.valid_until@ == until
    &&& e.status == ValidityStatus::Valid
}

/// `i` is the intent for a change to `path` on `surface`: a caller-asserted
/// `Bind` by `actor` with `standing`, citing `because` and the diff's
/// content hash as its only evidence, stamped `now` and valid until
/// `until`, with no precedence or revocation evidence.
pub open spec fn intent_holds(
    i: Intent,
    surface: AuthoritySurface,
    path: Seq<char>,
    sub: Option<Seq<char>>,
    log: ChangeLog,
    actor: Seq<char>,
    standing: StandingClass,
    because: Seq<char>,
    now: Seq<char>,
    until: Seq<char>,
) -> bool {
    &&& i.actor@ == actor
    &&& i.actor_standing == ActorStanding { class: standing, provenance: Provenance::CallerAsserted }
    &&& i.intended_action@ == action_name(surface)
    &&& i.operation_class == OperationClass::Bind
    &&& i.target@ == target_text(path, sub)
    &&& i.scope_assertion is None
    &&& i.claimed_basis.rule@ == because
    &&& i.claimed_basis.evidence_refs@.len() == 1
    &&& evidence_holds(i.claimed_basis.evidence_refs@[0], path, log, actor, now, until)
    &&& i.precedence.resolution == PrecedenceResolution::Active
    &&& i.precedence.superseded_by is None
    &&& i.precedence.provenance == Provenance::CallerAsserted
    &&& i.precedence.evidence_refs@.len() == 0
    &&& !i.revocation.basis_revoked
    &&& !i.revocation.standing_forbidden
    &&& i.revocation.provenance == Provenance::CallerAsserted
    &&& i.revocation.evidence_refs@.len() == 0
    &&& i.expected_effect@ == effect_text(surface, sub)
    &&& i.call_timestamp@ == now
    &&& i.prev_receipt_hash is None
}

/// The end of an intent's validity window, as its evidence states it.
pub open spec fn valid_until_of(i: Intent) -> Seq<char> {
    i.claimed_basis.evidence_refs@[0].valid_until@
}

/// `now` and `until` render the clock reading `t` and the instant an hour
/// later.
pub open spec fn clock_stamps(t: i64, now: Seq<char>, until: Seq<char>) -> bool {
    &&& t + 3600 <= i64::MAX
    &&& chrono_utc_format(t, stamp_format()) == Some(now)
    &&& chrono_utc_format((t + 3600) as i64, stamp_format()) == Some(until)
}

/// The clock reading `t`, and the instant an hour later, can be rendered.
pub open spec fn clock_renders(t: i64) -> bool {
    &&& t + 3600 <= i64::MAX
    &&& chrono_utc_format(t, stamp_format()) is Some
    &&& chrono_utc_format((t + 3600) as i64, stamp_format()) is Some
}

fn is_whitespace_char(c: char) -> (b: bool)
    ensures
        b == is_unicode_whitespace(c),
{
    let n = c as u32;
    (9 <= n && n <= 13) || n == 0x20 || n == 0x85 || n == 0xA0 || n == 0x1680 || (0x2000 <= n
        && n <= 0x200A) || n == 0x2028 || n == 0x2029 || n == 0x202F || n == 0x205F || n == 0x3000
}

proof fn lemma_trim_start(s: Seq<char>, k: int)
    requires
        0 <= k <= s.len(),
        forall|j: int| 0 <= j < k ==> is_unicode_whitespace(#[trigger] s[j]),
        k == s.len() || !is_unicode_whitespace(s[k]),
    ensures
        trim_start(s) == s.skip(k),
    decreases k,
{
    if k == 0 {
        assert(s.skip(0) =~= s);
    } else {
        let q = s.drop_first();
        assert forall|j: int| 0 <= j < k - 1 implies is_unicode_whitespace(#[trigger] q[j]) by {
            assert(q[j] == s[j + 1]);
        }
        if k < s.len() {
            assert(q[k - 1] == s[k]);
        }
        lemma_trim_start(q, k - 1);
        assert(q.skip(k - 1) =~= s.skip(k));
    }
}

/// Whether a line states a copyright.
pub fn is_copyright_line(line: &str) -> (b: bool)
    ensures
        b == is_copyright_text(line@),
{
    let v = chars_of(line);
    let n = v.len();
    let mut k: usize = 0;
    while k < n && is_whitespace_char(v[k])
        invariant
            k <= n == v@.len(),
            forall|j: int| 0 <= j < k ==> is_unicode_whitespace(#[trigger] v@[j]),
        decreases n - k,
    {
        k = k + 1;
    }
    proof {
        lemma_trim_start(v@, k as int);
        assert(v@.subrange(k as int, n as int) =~= v@.skip(k as int));
    }
    has_prefix(&v, k, n, "Copyright") || has_prefix(&v, k, n, "(c)") || has_prefix(&v, k, n, "(C)")
        || has_prefix(&v, k, n, "\u{00A9}")
}

fn any_copyright_line(lines: &Vec<String>) -> (b: bool)
    ensures
        b == has_copyright_line(crate::diff::strings_view(lines@)),
{
    let ghost ls = crate::diff::strings_view(lines@);
    let mut i: usize = 0;
    while i < lines.len()
        invariant
            i <= lines@.len(),
            ls == crate::diff::strings_view(lines@),
            forall|j: int| 0 <= j < i ==> !is_copyright_text(#[trigger] ls[j]),
        decreases lines@.len() - i,
    {
        if is_copyright_line(lines[i].as_str()) {
            assert(is_copyright_text(ls[i as int]));
            return true;
        }
        i = i + 1;
    }
    false
}

/// The part of `surface` that `changes` touch, if a part can be named.
fn detect_sub_target(surface: AuthoritySurface, changes: &FileChanges) -> (r: Option<String>)
    ensures
        opt_view(r) == sub_target_of(surface, changes@),
{
    match surface {
        AuthoritySurface::License => {
            let removed = any_copyright_line(&changes.removed);
            let added = any_copyright_line(&changes.added);
            if removed && added {
                Some(String::from_str("copyright_holder"))
            } else {
                None
            }
        },
        _ => None,
    }
}

/// Whether `sub` names the copyright holder.
fn is_copyright_holder(sub: &Option<String>) -> (b: bool)
    ensures
        b == (opt_view(*sub) == Some(copyright_holder_name())),
{
    match sub {
        Some(s) => {
            let v = chars_of(s.as_str());
            let n = v.len();
            assert(v@.subrange(0, n as int) == v@);
            range_equals(&v, 0, n, "copyright_holder")
        },
        None => false,
    }
}

/// What an intent on `surface` says it will do.
fn describe_effect(surface: AuthoritySurface, sub: &Option<String>) -> (s: String)
    ensures
        s@ == effect_text(surface, opt_view(*sub)),
{
    match surface {
        AuthoritySurface::License => {
            if is_copyright_holder(sub) {
                String::from_str("mutate LICENSE copyright holder")
            } else {
                String::from_str("mutate LICENSE contents")
            }
        },
        AuthoritySurface::Notice => String::from_str("mutate NOTICE contents"),
        AuthoritySurface::Codeowners => String::from_str("mutate CODEOWNERS"),
        AuthoritySurface::SecurityPolicy => String::from_str("mutate SECURITY policy"),
    }
}

fn action_text(surface: AuthoritySurface) -> (s: String)
    ensures
        s@ == action_name(surface),
{
    match surface {
        AuthoritySurface::License => String::from_str("diff.license_mutation"),
        AuthoritySurface::Notice => String::from_str("diff.notice_mutation"),
        AuthoritySurface::Codeowners => String::from_str("diff.codeowners_mutation"),
        AuthoritySurface::SecurityPolicy => String::from_str("diff.security_policy_mutation"),
    }
}

/// The intent for a change to `path` on `surface`, stamped `now` and valid
/// until `until`.
pub fn build_intent_at(
    surface: AuthoritySurface,
    path: &str,
    sub_target: &Option<String>,
    changes: &FileChanges,
    opts: &CookOpts,
    now: &str,
    until: &str,
) -> (i: Intent)
    ensures
        intent_holds(
            i,
            surface,
            path@,
            opt_view(*sub_target),
            changes@,
            opts.actor@,
            opts.standing,
            opts.because@,
            now@,
            until@,
        ),
{
    let target = match sub_target {
        Some(sub) => {
            let mut t = String::from_str(path);
            t.append(":");
            t.append(sub.as_str());
            t
        },
        None => String::from_str(path),
    };
    let diff_hash = hash_changes(changes);
    let mut reference = String::from_str("diff://");
    reference.append(path);
    reference.append("#sha256:");
    reference.append(diff_hash.as_str());
    let diff_evidence = Evidence {
        reference,
        kind: EvidenceKind::FileHash,
        issuer: String::from_str("wicket-guard"),
        subject: String::from_str(opts.actor),
        valid_from: String::from_str(now),
        valid_until: String::from_str(until),
        status: ValidityStatus::Valid,
    };
    let mut evidence_refs: Vec<Evidence> = Vec::new();
    evidence_refs.push(diff_evidence);
    Intent {
        actor: String::from_str(opts.actor),
        actor_standing: ActorStanding { class: opts.standing, provenance: Provenance::CallerAsserted },
        intended_action: action_text(surface),
        operation_class: OperationClass::Bind,
        target,
        scope_assertion: None,
        claimed_basis: ClaimedBasis { rule: String::from_str(opts.because), evidence_refs },
        precedence: Precedence {
            resolution: PrecedenceResolution::Active,
            superseded_by: None,
            provenance: Provenance::CallerAsserted,
            evidence_refs: Vec::new(),
        },
        revocation: Revocation {
            basis_revoked: false,
            standing_forbidden: false,
            provenance: Provenance::CallerAsserted,
            evidence_refs: Vec::new(),
        },
        expected_effect: describe_effect(surface, sub_target),
        call_timestamp: String::from_str(now),
        prev_receipt_hash: None,
    }
}

/// The timestamps of a validity window that opens at the clock reading
/// `now` (seconds since the Unix epoch) and closes an hour later.
pub fn stamp_window(now: i64) -> (r: Result<(String, String), CookError>)
    ensures
        match r {
            Ok((a, b)) => clock_stamps(now, a@, b@),
            Err(e) => e == CookError::ClockOutOfRange { reading: now } && !clock_renders(now),
        },
{
    let fmt = "%Y-%m-%dT%H:%M:%SZ";
    let later = match now.checked_add(3600) {
        Some(l) => l,
        None => {
            return Err(CookError::ClockOutOfRange { reading: now });
        },
    };
    let now_text = match format_utc(now, fmt) {
        Some(t) => t,
        None => {
            return Err(CookError::ClockOutOfRange { reading: now });
        },
    };
    let until_text = match format_utc(later, fmt) {
        Some(t) => t,
        None => {
            return Err(CookError::ClockOutOfRange { reading: now });
        },
    };
    Ok((now_text, until_text))
}

/// A reading of the system clock in whole seconds since the Unix epoch
/// (`None` for a clock before the epoch), as a signed count of seconds.
pub fn reading_secs(reading: Option<u64>) -> (r: Result<i64, CookError>)
    ensures
        match reading {
            Some(x) => if x <= i64::MAX {
                r == Ok::<i64, CookError>(x as i64)
            } else {
                r == Err::<i64, CookError>(CookError::ClockUnreadable)
            },
            None => r == Err::<i64, CookError>(CookError::ClockUnreadable),
        },
{
    match reading {
        Some(secs) => {
            if secs <= 9223372036854775807u64 {
                Ok(secs as i64)
            } else {
                Err(CookError::ClockUnreadable)
            }
        },
        None => Err(CookError::ClockUnreadable),
    }
}

/// The clock reading in seconds since the Unix epoch, if it can be had.
fn clock_reading() -> (r: Result<i64, CookError>)
    ensures
        r matches Err(e) ==> e == CookError::ClockUnreadable,
{
    let now = system_time_now();
    let reading = match since_unix_epoch(&now) {
        Some(d) => Some(whole_secs(&d)),
        None => None,
    };
    reading_secs(reading)
}

/// The intent for a change to `path` on `surface`, stamped with the
/// current time and valid for an hour.
fn build_intent(
    surface: AuthoritySurface,
    path: &str,
    sub_target: &Option<String>,
    changes: &FileChanges,
    opts: &CookOpts,
) -> (r: Result<Intent, CookError>)
    ensures
        match r {
            Ok(i) => {
                &&& intent_holds(
                    i,
                    surface,
                    path@,
                    opt_view(*sub_target),
                    changes@,
                    opts.actor@,
                    opts.standing,
                    opts.because@,
                    i.call_timestamp@,
                    valid_until_of(i),
                )
                &&& exists|t: i64| clock_stamps(t, i.call_timestamp@, valid_until_of(i))
            },
            Err(e) => clock_failure(e),
        },
{
    let now = clock_reading()?;
    let (now_text, until_text) = match stamp_window(now) {
        Ok(w) => w,
        Err(e) => {
            return Err(e);
        },
    };
    let i = build_intent_at(surface, path, sub_target, changes, opts, now_text.as_str(), until_text.as_str());
    assert(clock_stamps(now, i.call_timestamp@, valid_until_of(i)));
    Ok(i)
}

/// The clock could not be read, or read a time it cannot be stamped with.
pub open spec fn clock_failure(e: CookError) -> bool {
    ||| e == CookError::ClockUnreadable
    ||| (e matches CookError::ClockOutOfRange { reading } && !clock_renders(reading))
}

/// The entries of a diff whose paths are authority-bearing surfaces, in
/// order.
pub open spec fn surfaced(files: Seq<(String, FileChanges)>) -> Seq<(String, FileChanges)>
    decreases files.len(),
{
    if files.len() == 0 {
        Seq::empty()
    } else if path_surface(files.last().0@) is Some {
        surfaced(files.drop_last()).push(files.last())
    } else {
        surfaced(files.drop_last())
    }
}

/// `ci` is what cooking the diff entry `entry` gives: the entry's surface
/// and path, the sub-target its changes touch, and the intent for them,
/// stamped with a clock reading and valid for an hour after it.
pub open spec fn cooked_from(
    ci: CookedIntent,
    entry: (String, FileChanges),
    actor: Seq<char>,
    standing: StandingClass,
    because: Seq<char>,
) -> bool {
    let path = entry.0@;
    let sub = sub_target_of(ci.surface, entry.1@);
    &&& path_surface(path) == Some(ci.surface)
    &&& ci.path@ == path
    &&& opt_view(ci.sub_target) == sub
    &&& intent_holds(
        ci.intent,
        ci.surface,
        path,
        sub,
        entry.1@,
        actor,
        standing,
        because,
        ci.intent.call_timestamp@,
        valid_until_of(ci.intent),
    )
    &&& exists|t: i64| clock_stamps(t, ci.intent.call_timestamp@, valid_until_of(ci.intent))
}

/// One intent for each file of the diff that is an authority-bearing
/// surface, in the diff's order; files on no surface give none.
pub fn cook_diff(diff: &ParsedDiff, opts: &CookOpts) -> (r: Result<Vec<CookedIntent>, CookError>)
    ensures
        match r {
            Ok(out) => {
                let want = surfaced(diff.files@);
                &&& out@.len() == want.len()
                &&& forall|i: int|
                    0 <= i < out@.len() ==> cooked_from(
                        #[trigger] out@[i],
                        want[i],
                        opts.actor@,
                        opts.standing,
                        opts.because@,
                    )
            },
            Err(e) => clock_failure(e),
        },
        surfaced(diff.files@).len() == 0 ==> (r matches Ok(out) && out@.len() == 0),
        keys_sorted(diff.files@) ==> (r matches Ok(out) ==> forall|i: int, j: int|
            0 <= i < j < out@.len() ==> seq_lt(#[trigger] out@[i].path@, #[trigger] out@[j].path@)),
{
    let mut out: Vec<CookedIntent> = Vec::new();
    let mut k: usize = 0;
    assert(diff.files@.take(0) =~= Seq::<(String, FileChanges)>::empty());
    while k < diff.files.len()
        invariant
            k <= diff.files@.len(),
            out@.len() == surfaced(diff.files@.take(k as int)).len(),
            forall|i: int|
                0 <= i < out@.len() ==> cooked_from(
                    #[trigger] out@[i],
                    surfaced(diff.files@.take(k as int))[i],
                    opts.actor@,
                    opts.standing,
                    opts.because@,
                ),
        decreases diff.files@.len() - k,
    {
        let ghost prev = diff.files@.take(k as int);
        let ghost next = diff.files@.take(k + 1);
        assert(next.drop_last() =~= prev);
        let path = &diff.files[k].0;
        let changes = &diff.files[k].1;
        match classify_path(path.as_str()) {
            Some(surface) => {
                let sub_target = detect_sub_target(surface, changes);
                let intent = match build_intent(surface, path.as_str(), &sub_target, changes, opts) {
                    Ok(i) => i,
                    Err(e) => {
                        proof {
                            assert(surfaced(next) == surfaced(prev).push(next.last()));
                            lemma_surfaced_prefix(diff.files@, k + 1);
                        }
                        return Err(e);
                    },
                };
                let ghost old_out = out@;
                out.push(CookedIntent { surface, path: path.clone(), sub_target, intent });
                proof {
                    assert(surfaced(next) == surfaced(prev).push(next.last()));
                    assert forall|i: int| 0 <= i < out@.len() implies cooked_from(
                        #[trigger] out@[i],
                        surfaced(next)[i],
                        opts.actor@,
                        opts.standing,
                        opts.because@,
                    ) by {
                        if i < old_out.len() {
                            assert(out@[i] == old_out[i]);
                        }
                    }
                }
            },
            None => {
                assert(surfaced(next) == surfaced(prev));
            },
        }
        k = k + 1;
    }
    assert(diff.files@.take(diff.files@.len() as int) =~= diff.files@);
    proof {
        if keys_sorted(diff.files@) {
            lemma_surfaced_sorted(diff.files@);
        }
    }
    Ok(out)
}

/// The surface entries of a prefix are no more than those of the whole.
proof fn lemma_surfaced_prefix(files: Seq<(String, FileChanges)>, n: int)
    requires
        0 <= n <= files.len(),
    ensures
        surfaced(files.take(n)).len() <= surfaced(files).len(),
    decreases files.len(),
{
    if n < files.len() {
        assert(files.take(n) =~= files.drop_last().take(n));
        lemma_surfaced_prefix(files.drop_last(), n);
    } else {
        assert(files.take(n) =~= files);
    }
}

/// The surface entries are entries of the diff, and keep its path order.
proof fn lemma_surfaced_sorted(files: Seq<(String, FileChanges)>)
    ensures
        forall|i: int|
            0 <= i < surfaced(files).len() ==> exists|k: int|
                0 <= k < files.len() && #[trigger] surfaced(files)[i] == files[k],
        keys_sorted(files) ==> keys_sorted(surfaced(files)),
    decreases files.len(),
{
    if files.len() > 0 {
        let prev = files.drop_last();
        lemma_surfaced_sorted(prev);
        let out = surfaced(files);
        assert forall|i: int| 0 <= i < out.len() implies exists|k: int|
            0 <= k < files.len() && #[trigger] out[i] == files[k] by {
            if i < surfaced(prev).len() {
                assert(out[i] == surfaced(prev)[i]);
                let k = choose|k: int| 0 <= k < prev.len() && surfaced(prev)[i] == prev[k];
                assert(files[k] == prev[k]);
            } else {
                assert(out[i] == files[files.len() - 1]);
            }
        }
        if keys_sorted(files) {
            assert(keys_sorted(prev)) by {
                assert forall|a: int, b: int| 0 <= a < b < prev.len() implies seq_lt(
                    #[trigger] prev[a].0@,
                    #[trigger] prev[b].0@,
                ) by {
                    assert(prev[a] == files[a] && prev[b] == files[b]);
                }
            }
            assert forall|a: int, b: int| 0 <= a < b < out.len() implies seq_lt(
                #[trigger] out[a].0@,
                #[trigger] out[b].0@,
            ) by {
                if b < surfaced(prev).len() {
                    assert(out[a] == surfaced(prev)[a] && out[b] == surfaced(prev)[b]);
                } else {
                    assert(out[a] == surfaced(prev)[a]);
                    assert(out[b] == files[files.len() - 1]);
                    let k = choose|k: int| 0 <= k < prev.len() && surfaced(prev)[a] == prev[k];
                    assert(files[k] == prev[k]);
                }
            }
        }
    }
}


/// A diff gives no intents exactly when none of its files is on an
/// authority-bearing surface.
pub proof fn law_silent_without_surfaces(files: Seq<(String, FileChanges)>)
    ensures
        (surfaced(files).len() == 0) <==> (forall|i: int|
            0 <= i < files.len() ==> path_surface(#[trigger] files[i].0@) is None),
    decreases files.len(),
{
    if files.len() > 0 {
        law_silent_without_surfaces(files.drop_last());
        if surfaced(files).len() == 0 {
            assert forall|i: int| 0 <= i < files.len() implies path_surface(
                #[trigger] files[i].0@,
            ) is None by {
                if i < files.len() - 1 {
                    assert(files.drop_last()[i] == files[i]);
                }
            }
        } else {
            if path_surface(files.last().0@) is None {
                let i = choose|i: int|
                    0 <= i < files.drop_last().len() && path_surface(
                        #[trigger] files.drop_last()[i].0@,
                    ) is Some;
                assert(files.drop_last()[i] == files[i]);
            } else {
                assert(files[files.len() - 1] == files.last());
            }
        }
    }
}

/// Every intent is for a file on a surface, and every file on a surface
/// gets one.
pub proof fn law_intents_cover_surfaces(files: Seq<(String, FileChanges)>)
    ensures
        forall|i: int|
            0 <= i < surfaced(files).len() ==> path_surface(#[trigger] surfaced(files)[i].0@) is Some,
        forall|j: int|
            0 <= j < files.len() && path_surface(#[trigger] files[j].0@) is Some ==> surfaced(
                files,
            ).contains(files[j]),
    decreases files.len(),
{
    if files.len() > 0 {
        let prev = files.drop_last();
        law_intents_cover_surfaces(prev);
        let out = surfaced(files);
        assert forall|i: int| 0 <= i < out.len() implies path_surface(#[trigger] out[i].0@) is Some by {
            if i < surfaced(prev).len() {
                assert(out[i] == surfaced(prev)[i]);
            }
        }
        assert forall|j: int| 0 <= j < files.len() && path_surface(#[trigger] files[j].0@) is Some implies out.contains(files[j]) by {
            if j < files.len() - 1 {
                assert(prev[j] == files[j]);
                let k = choose|k: int| 0 <= k < surfaced(prev).len() && surfaced(prev)[k] == prev[j];
                assert(out[k] == surfaced(prev)[k]);
            } else {
                assert(out[out.len() - 1] == files.last());
            }
        }
    }
}

/// A LICENSE change that removes one copyright line and adds another is
/// cooked as a bind on the copyright holder itself: its target is the path
/// followed by `:copyright_holder`, and it says it mutates the holder.
pub proof fn law_copyright_swap_targets_holder(
    ci: CookedIntent,
    entry: (String, FileChanges),
    actor: Seq<char>,
    standing: StandingClass,
    because: Seq<char>,
)
    requires
        cooked_from(ci, entry, actor, standing, because),
        path_surface(entry.0@) == Some(AuthoritySurface::License),
        has_copyright_line(entry.1@.removed),
        has_copyright_line(entry.1@.added),
    ensures
        opt_view(ci.sub_target) == Some(copyright_holder_name()),
        ci.intent.target@ == entry.0@ + ":"@ + copyright_holder_name(),
        ci.intent.expected_effect@ == "mutate LICENSE copyright holder"@,
        ci.intent.intended_action@ == "diff.license_mutation"@,
        ci.intent.operation_class == OperationClass::Bind,
{
}

/// The action of an intent names its own surface: `diff.`, the surface's
/// name (as `as_str` gives it) and `_mutation`; so distinct surfaces get
/// distinct actions.
pub proof fn law_action_names_surface(a: AuthoritySurface, b: AuthoritySurface)
    ensures
        action_name(a) == "diff."@ + crate::surfaces::surface_name(a) + "_mutation"@,
        action_name(a) == action_name(b) ==> a == b,
        action_name(AuthoritySurface::License) == "diff.license_mutation"@,
        action_name(AuthoritySurface::Notice) == "diff.notice_mutation"@,
        action_name(AuthoritySurface::Codeowners) == "diff.codeowners_mutation"@,
        action_name(AuthoritySurface::SecurityPolicy) == "diff.security_policy_mutation"@,
{
    reveal_strlit("diff.");
    reveal_strlit("_mutation");
    reveal_strlit("license");
    reveal_strlit("notice");
    reveal_strlit("codeowners");
    reveal_strlit("security_policy");
    reveal_strlit("diff.license_mutation");
    reveal_strlit("diff.notice_mutation");
    reveal_strlit("diff.codeowners_mutation");
    reveal_strlit("diff.security_policy_mutation");
    assert(action_name(a) =~= "diff."@ + crate::surfaces::surface_name(a) + "_mutation"@);
    assert(action_name(b) =~= "diff."@ + crate::surfaces::surface_name(b) + "_mutation"@);
    if action_name(a) == action_name(b) {
        assert(action_name(a).len() == action_name(b).len());
    }
}

/// A list of lines has a copyright line exactly when one of them, at any
/// position, states a copyright; and a line states a copyright exactly
/// when, after some run of whitespace, it begins with `Copyright`, `(c)`,
/// `(C)` or the copyright sign.
pub proof fn law_copyright_lines(lines: Seq<Seq<char>>, line: Seq<char>)
    ensures
        forall|i: int| 0 <= i < lines.len() && #[trigger] is_copyright_text(lines[i]) ==> has_copyright_line(lines),
        has_copyright_line(lines) ==> exists|i: int| 0 <= i < lines.len() && #[trigger] is_copyright_text(lines[i]),
        is_copyright_text(line) <==> exists|k: int|
            0 <= k <= line.len() && (forall|j: int| 0 <= j < k ==> #[trigger] is_unicode_whitespace(line[j]))
                && copyright_opening(#[trigger] line.skip(k)),
{
    lemma_trim_start_shape(line);
    if is_copyright_text(line) {
        let k = line.len() - trim_start(line).len();
        assert(line.skip(k) == trim_start(line));
    } else {
        assert forall|k: int|
            0 <= k <= line.len() && (forall|j: int| 0 <= j < k ==> #[trigger] is_unicode_whitespace(line[j]))
            implies !copyright_opening(#[trigger] line.skip(k)) by {
            lemma_copyright_after_spaces(line, k);
        }
    }
}

/// A change to a file is tagged as swapping the copyright holder exactly
/// when the file is a license, some removed line (at any position) states a
/// copyright and some added line (at any position) states one.
pub proof fn law_copyright_holder_swap(surface: AuthoritySurface, log: ChangeLog)
    ensures
        (sub_target_of(surface, log) == Some("copyright_holder"@)) <==> (surface
            == AuthoritySurface::License && (exists|i: int|
            0 <= i < log.removed.len() && #[trigger] is_copyright_text(log.removed[i])) && (exists|
            j: int,
        |
            0 <= j < log.added.len() && #[trigger] is_copyright_text(log.added[j]))),
        sub_target_of(surface, log) is None || sub_target_of(surface, log) == Some(
            "copyright_holder"@,
        ),
{
}

/// A text that opens a copyright statement.
pub open spec fn copyright_opening(t: Seq<char>) -> bool {
    ||| seq_starts_with(t, "Copyright"@)
    ||| seq_starts_with(t, "(c)"@)
    ||| seq_starts_with(t, "(C)"@)
    ||| seq_starts_with(t, "\u{00A9}"@)
}

proof fn lemma_trim_start_shape(s: Seq<char>)
    ensures
        trim_start(s).len() <= s.len(),
        trim_start(s) == s.skip(s.len() - trim_start(s).len()),
        forall|j: int| 0 <= j < s.len() - trim_start(s).len() ==> #[trigger] is_unicode_whitespace(s[j]),
        trim_start(s).len() > 0 ==> !is_unicode_whitespace(trim_start(s)[0]),
    decreases s.len(),
{
    if s.len() > 0 && is_unicode_whitespace(s[0]) {
        lemma_trim_start_shape(s.drop_first());
        assert(s.drop_first().skip(s.drop_first().len() - trim_start(s).len()) =~= s.skip(
            s.len() - trim_start(s).len(),
        ));
        assert forall|j: int| 0 <= j < s.len() - trim_start(s).len() implies #[trigger] is_unicode_whitespace(s[j]) by {
            if j > 0 {
                assert(s[j] == s.drop_first()[j - 1]);
            }
        }
    } else {
        assert(s.skip(0) =~= s);
    }
}

/// Starting after any whitespace run short of the first other character
/// never opens a copyright statement that trimming would not find.
proof fn lemma_copyright_after_spaces(line: Seq<char>, k: int)
    requires
        0 <= k <= line.len(),
        forall|j: int| 0 <= j < k ==> #[trigger] is_unicode_whitespace(line[j]),
        !is_copyright_text(line),
    ensures
        !copyright_opening(line.skip(k)),
{
    lemma_trim_start_shape(line);
    let m = line.len() - trim_start(line).len();
    if k == m {
        assert(line.skip(k) == trim_start(line));
    } else if k < m {
        // line[k] is whitespace, which none of the openings begins with
        let t = line.skip(k);
        assert(t[0] == line[k]);
        reveal_strlit("Copyright");
        reveal_strlit("(c)");
        reveal_strlit("(C)");
        reveal_strlit("\u{00A9}");
        assert(is_unicode_whitespace(t[0]));
        if seq_starts_with(t, "Copyright"@) {
            assert(t.take(9)[0] == t[0]);
            assert("Copyright"@[0] == 'C');
            assert(!is_unicode_whitespace('C'));
        }
        if seq_starts_with(t, "(c)"@) {
            assert(t.take(3)[0] == t[0]);
            assert("(c)"@[0] == '(');
            assert(!is_unicode_whitespace('('));
        }
        if seq_starts_with(t, "(C)"@) {
            assert(t.take(3)[0] == t[0]);
            assert("(C)"@[0] == '(');
        }
        if seq_starts_with(t, "\u{00A9}"@) {
            assert(t.take(1)[0] == t[0]);
            assert("\u{00A9}"@[0] == '\u{00A9}');
            assert(!is_unicode_whitespace('\u{00A9}'));
        }
    } else {
        // k > m would put a non-whitespace character inside the run
        assert(trim_start(line)[0] == line[m]);
        assert(is_unicode_whitespace(line[m]));
    }
}

proof fn lemma_trim_start_prefix(w: Seq<char>, line: Seq<char>)
    requires
        forall|i: int| 0 <= i < w.len() ==> is_unicode_whitespace(#[trigger] w[i]),
    ensures
        trim_start(w + line) == trim_start(line),
    decreases w.len(),
{
    if w.len() > 0 {
        assert((w + line).drop_first() =~= w.drop_first() + line);
        assert((w + line)[0] == w[0]);
        assert forall|i: int| 0 <= i < w.drop_first().len() implies is_unicode_whitespace(
            #[trigger] w.drop_first()[i],
        ) by {
            assert(w.drop_first()[i] == w[i + 1]);
        }
        lemma_trim_start_prefix(w.drop_first(), line);
    } else {
        assert(w + line =~= line);
    }
}

/// Indentation does not hide a copyright line: leading whitespace never
/// changes whether a line states a copyright.
pub proof fn law_copyright_ignores_indent(w: Seq<char>, line: Seq<char>)
    requires
        forall|i: int| 0 <= i < w.len() ==> is_unicode_whitespace(#[trigger] w[i]),
    ensures
        is_copyright_text(w + line) == is_copyright_text(line),
{
    lemma_trim_start_prefix(w, line);
}

} // verus!
