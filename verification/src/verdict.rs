//! Reading a claimed standing, and folding the kernel's verdicts on the
//! cooked intents into one outcome and an exit status.

use vstd::prelude::*;
use crate::intent::{StandingClass, SurfaceVerdict};
use crate::text::{chars_of, range_equals};

verus! {

/// The standing a command-line name stands for.
pub open spec fn standing_named(s: Seq<char>) -> Option<StandingClass> {
    if s == "observe"@ {
        Some(StandingClass::Observe)
    } else if s == "interpret"@ {
        Some(StandingClass::Interpret)
    } else if s == "recommend"@ {
        Some(StandingClass::Recommend)
    } else if s == "authorize"@ {
        Some(StandingClass::Authorize)
    } else if s == "execute"@ {
        Some(StandingClass::Execute)
    } else {
        None
    }
}

/// The standing named `s`, or `None` for any other name.
pub fn parse_standing(s: &str) -> (r: Option<StandingClass>)
    ensures
        r == standing_named(s@),
{
    let v = chars_of(s);
    let n = v.len();
    assert(v@.subrange(0, n as int) == v@);
    if range_equals(&v, 0, n, "observe") {
        Some(StandingClass::Observe)
    } else if range_equals(&v, 0, n, "interpret") {
        Some(StandingClass::Interpret)
    } else if range_equals(&v, 0, n, "recommend") {
        Some(StandingClass::Recommend)
    } else if range_equals(&v, 0, n, "authorize") {
        Some(StandingClass::Authorize)
    } else if range_equals(&v, 0, n, "execute") {
        Some(StandingClass::Execute)
    } else {
        None
    }
}

/// The snake-case name of a verdict.
pub open spec fn verdict_name(v: SurfaceVerdict) -> Seq<char> {
    match v {
        SurfaceVerdict::Authorized => "authorized"@,
        SurfaceVerdict::AdvisoryOnly => "advisory"@,
        SurfaceVerdict::Denied => "denied"@,
        SurfaceVerdict::Gap => "gap"@,
        SurfaceVerdict::Unaccounted => "unaccounted"@,
    }
}

/// The snake-case name of a verdict.
pub fn snake(v: SurfaceVerdict) -> (s: &'static str)
    ensures
        s@ == verdict_name(v),
{
    match v {
        SurfaceVerdict::Authorized => "authorized",
        SurfaceVerdict::AdvisoryOnly => "advisory",
        SurfaceVerdict::Denied => "denied",
        SurfaceVerdict::Gap => "gap",
        SurfaceVerdict::Unaccounted => "unaccounted",
    }
}

/// How bad a verdict is: authorized, advisory, gap, denied, unaccounted.
pub open spec fn rank(v: SurfaceVerdict) -> int {
    match v {
        SurfaceVerdict::Authorized => 0,
        SurfaceVerdict::AdvisoryOnly => 1,
        SurfaceVerdict::Gap => 2,
        SurfaceVerdict::Denied => 3,
        SurfaceVerdict::Unaccounted => 4,
    }
}

/// The worse of two verdicts, `a` on a tie.
pub open spec fn worse(a: SurfaceVerdict, b: SurfaceVerdict) -> SurfaceVerdict {
    if rank(b) > rank(a) {
        b
    } else {
        a
    }
}

fn verdict_rank(v: SurfaceVerdict) -> (r: u8)
    ensures
        r == rank(v),
{
    match v {
        SurfaceVerdict::Authorized => 0,
        SurfaceVerdict::AdvisoryOnly => 1,
        SurfaceVerdict::Gap => 2,
        SurfaceVerdict::Denied => 3,
        SurfaceVerdict::Unaccounted => 4,
    }
}

/// The worse of two verdicts.
pub fn worst_of(a: SurfaceVerdict, b: SurfaceVerdict) -> (r: SurfaceVerdict)
    ensures
        r == worse(a, b),
{
    if verdict_rank(b) > verdict_rank(a) {
        b
    } else {
        a
    }
}

/// The worst of a list of verdicts, starting from `Authorized`.
pub open spec fn worst_all(vs: Seq<SurfaceVerdict>) -> SurfaceVerdict
    decreases vs.len(),
{
    if vs.len() == 0 {
        SurfaceVerdict::Authorized
    } else {
        worse(worst_all(vs.drop_last()), vs.last())
    }
}

/// The worst of the verdicts on all cooked intents; `Authorized` for none.
pub fn worst_verdict(vs: &Vec<SurfaceVerdict>) -> (r: SurfaceVerdict)
    ensures
        r == worst_all(vs@),
{
    let mut w = SurfaceVerdict::Authorized;
    let mut i: usize = 0;
    assert(vs@.take(0) =~= Seq::<SurfaceVerdict>::empty());
    while i < vs.len()
        invariant
            i <= vs@.len(),
            w == worst_all(vs@.take(i as int)),
        decreases vs@.len() - i,
    {
        assert(vs@.take(i + 1).drop_last() =~= vs@.take(i as int));
        w = worst_of(w, vs[i]);
        i = i + 1;
    }
    assert(vs@.take(vs@.len() as int) =~= vs@);
    w
}

/// Exit status of a combined verdict.
/// Nothing worse than advisory: 0; unaccounted: 2; anything else: 1.
pub open spec fn exit_status(v: SurfaceVerdict) -> u8 {
    match v {
        SurfaceVerdict::Authorized | SurfaceVerdict::AdvisoryOnly => 0,
        SurfaceVerdict::Unaccounted => 2,
        _ => 1,
    }
}

/// The process exit status for an overall verdict.
pub fn exit_code(v: SurfaceVerdict) -> (c: u8)
    ensures
        c == exit_status(v),
{
    match v {
        SurfaceVerdict::Authorized | SurfaceVerdict::AdvisoryOnly => 0,
        SurfaceVerdict::Unaccounted => 2,
        _ => 1,
    }
}

/// The standing names and the standings are in one-to-one correspondence:
/// each standing has exactly one name.
pub proof fn law_standing_names_distinct(s: Seq<char>, t: Seq<char>)
    requires
        standing_named(s) is Some,
        standing_named(s) == standing_named(t),
    ensures
        s == t,
{
}

/// Combining verdicts does not depend on their order.
pub proof fn law_worse_commutative(a: SurfaceVerdict, b: SurfaceVerdict)
    ensures
        worse(a, b) == worse(b, a),
{
}

/// Combining verdicts does not depend on their grouping.
pub proof fn law_worse_associative(a: SurfaceVerdict, b: SurfaceVerdict, c: SurfaceVerdict)
    ensures
        worse(worse(a, b), c) == worse(a, worse(b, c)),
{
}

/// `Authorized` changes nothing, and a verdict combined with itself is
/// itself.
pub proof fn law_worse_identity(a: SurfaceVerdict)
    ensures
        worse(SurfaceVerdict::Authorized, a) == a,
        worse(a, SurfaceVerdict::Authorized) == a,
        worse(a, a) == a,
{
}

/// The overall verdict is at least as bad as every single one, and is one of
/// them (or `Authorized` when there are none).
pub proof fn law_worst_dominates(vs: Seq<SurfaceVerdict>)
    ensures
        forall|i: int| 0 <= i < vs.len() ==> rank(worst_all(vs)) >= rank(#[trigger] vs[i]),
        worst_all(vs) == SurfaceVerdict::Authorized || vs.contains(worst_all(vs)),
    decreases vs.len(),
{
    if vs.len() > 0 {
        law_worst_dominates(vs.drop_last());
        assert forall|i: int| 0 <= i < vs.len() implies rank(worst_all(vs)) >= rank(#[trigger] vs[i]) by {
            if i < vs.len() - 1 {
                assert(vs.drop_last()[i] == vs[i]);
            }
        }
        if worst_all(vs) != SurfaceVerdict::Authorized {
            if worst_all(vs) == vs.last() {
                assert(vs[vs.len() - 1] == vs.last());
            } else {
                let w = worst_all(vs.drop_last());
                let j = choose|j: int| 0 <= j < vs.drop_last().len() && vs.drop_last()[j] == w;
                assert(vs[j] == w);
            }
        }
    }
}

/// The run succeeds exactly when no surface came back worse than advisory.
pub proof fn law_exit_success(vs: Seq<SurfaceVerdict>)
    ensures
        (exit_status(worst_all(vs)) == 0) <==> (forall|i: int|
            0 <= i < vs.len() ==> rank(#[trigger] vs[i]) <= 1),
{
    law_worst_dominates(vs);
    if exit_status(worst_all(vs)) != 0 && worst_all(vs) != SurfaceVerdict::Authorized {
        let j = choose|j: int| 0 <= j < vs.len() && vs[j] == worst_all(vs);
        assert(rank(vs[j]) > 1);
    }
}

} // verus!
