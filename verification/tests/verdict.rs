use wicket_guard::verdict::{exit_code, parse_standing, snake, worst_of, worst_verdict};
use wicket_guard::{StandingClass, SurfaceVerdict};

const ALL: [SurfaceVerdict; 5] = [
    SurfaceVerdict::Authorized,
    SurfaceVerdict::AdvisoryOnly,
    SurfaceVerdict::Gap,
    SurfaceVerdict::Denied,
    SurfaceVerdict::Unaccounted,
];

#[test]
fn standings_by_name() {
    assert_eq!(parse_standing("observe"), Some(StandingClass::Observe));
    assert_eq!(parse_standing("interpret"), Some(StandingClass::Interpret));
    assert_eq!(parse_standing("recommend"), Some(StandingClass::Recommend));
    assert_eq!(parse_standing("authorize"), Some(StandingClass::Authorize));
    assert_eq!(parse_standing("execute"), Some(StandingClass::Execute));
    assert_eq!(parse_standing("Execute"), None);
    assert_eq!(parse_standing(""), None);
}

#[test]
fn verdict_names() {
    let names: Vec<&str> = ALL.iter().map(|v| snake(*v)).collect();
    assert_eq!(names, vec!["authorized", "advisory", "gap", "denied", "unaccounted"]);
}

#[test]
fn worst_of_orders_verdicts() {
    for (i, a) in ALL.iter().enumerate() {
        for (j, b) in ALL.iter().enumerate() {
            let w = worst_of(*a, *b);
            assert_eq!(w, if j > i { *b } else { *a });
            assert_eq!(w, worst_of(*b, *a));
        }
        assert_eq!(worst_of(SurfaceVerdict::Authorized, *a), *a);
    }
}

#[test]
fn worst_verdict_and_exit_codes() {
    assert_eq!(worst_verdict(&vec![]), SurfaceVerdict::Authorized);
    assert_eq!(
        worst_verdict(&vec![SurfaceVerdict::Gap, SurfaceVerdict::AdvisoryOnly, SurfaceVerdict::Denied]),
        SurfaceVerdict::Denied
    );
    assert_eq!(exit_code(SurfaceVerdict::Authorized), 0);
    assert_eq!(exit_code(SurfaceVerdict::AdvisoryOnly), 0);
    assert_eq!(exit_code(SurfaceVerdict::Gap), 1);
    assert_eq!(exit_code(SurfaceVerdict::Denied), 1);
    assert_eq!(exit_code(SurfaceVerdict::Unaccounted), 2);
}
