use wicket_guard::cook::{build_intent_at, is_copyright_line, reading_secs, stamp_window};
use wicket_guard::intent::{EvidenceKind, OperationClass, Provenance, ValidityStatus};
use wicket_guard::{cook_diff, parse, AuthoritySurface, CookError, CookOpts, FileChanges, StandingClass};

/// An agent swaps the copyright holder of a LICENSE for another name.
const COPYRIGHT_HOLDER_SWAP: &str = "\
diff --git a/LICENSE b/LICENSE
index 3b18e51..c2a9f4d 100644
--- a/LICENSE
+++ b/LICENSE
@@ -1,6 +1,6 @@
 MIT License
 
-Copyright (c) 2025 Ada Lovelace
+Copyright (c) 2025 Grace Hopper
 
 Permission is hereby granted, free of charge, to any person obtaining a copy
";

#[test]
fn license_copyright_holder_swap_is_refused() {
    let parsed = parse(COPYRIGHT_HOLDER_SWAP);
    assert!(
        parsed.contains_key("LICENSE"),
        "fixture must touch LICENSE; got files: {:?}",
        parsed.files.iter().map(|(k, _)| k).collect::<Vec<_>>(),
    );

    let opts = CookOpts {
        actor: "coding-agent",
        standing: StandingClass::Execute,
        because: "agent inferred copyright holder from diff context",
    };
    let cooked = cook_diff(&parsed, &opts).expect("clock readable");
    assert_eq!(cooked.len(), 1, "expected exactly one cooked intent");

    let ci = &cooked[0];
    assert_eq!(ci.path, "LICENSE");
    assert_eq!(ci.sub_target.as_deref(), Some("copyright_holder"));
    assert_eq!(ci.intent.target, "LICENSE:copyright_holder");
    assert_eq!(ci.intent.intended_action, "diff.license_mutation");

    // What a kernel refuses without a human confirmation: a bind whose only
    // basis is caller-asserted evidence.
    assert_eq!(ci.intent.operation_class, OperationClass::Bind);
    assert_eq!(ci.intent.actor_standing.provenance, Provenance::CallerAsserted);
    assert_eq!(ci.intent.claimed_basis.evidence_refs.len(), 1);
    assert_eq!(ci.intent.claimed_basis.evidence_refs[0].kind, EvidenceKind::FileHash);
}

#[test]
fn unrelated_source_change_is_silent() {
    let diff = "\
diff --git a/src/main.rs b/src/main.rs
index abc..def 100644
--- a/src/main.rs
+++ b/src/main.rs
@@ -1,3 +1,3 @@
 fn main() {
-    println!(\"hi\");
+    println!(\"hello\");
 }
";
    let parsed = parse(diff);
    let opts = CookOpts {
        actor: "coding-agent",
        standing: StandingClass::Execute,
        because: "rename greeting",
    };
    let cooked = cook_diff(&parsed, &opts).expect("clock readable");
    assert!(
        cooked.is_empty(),
        "non-authority surfaces should not produce intents; got {} intents",
        cooked.len(),
    );
}

fn changes(removed: &[&str], added: &[&str]) -> FileChanges {
    FileChanges {
        added: added.iter().map(|s| s.to_string()).collect(),
        removed: removed.iter().map(|s| s.to_string()).collect(),
    }
}

#[test]
fn intent_fields_are_exact() {
    let opts = CookOpts { actor: "bot", standing: StandingClass::Recommend, because: "tidy" };
    let fc = changes(&["old line"], &["new line"]);
    let i = build_intent_at(
        AuthoritySurface::Notice,
        "NOTICE",
        &None,
        &fc,
        &opts,
        "2025-01-01T00:00:00Z",
        "2025-01-01T01:00:00Z",
    );
    assert_eq!(i.actor, "bot");
    assert_eq!(i.actor_standing.class, StandingClass::Recommend);
    assert_eq!(i.actor_standing.provenance, Provenance::CallerAsserted);
    assert_eq!(i.intended_action, "diff.notice_mutation");
    assert_eq!(i.operation_class, OperationClass::Bind);
    assert_eq!(i.target, "NOTICE");
    assert_eq!(i.scope_assertion, None);
    assert_eq!(i.claimed_basis.rule, "tidy");
    assert_eq!(i.claimed_basis.evidence_refs.len(), 1);
    let e = &i.claimed_basis.evidence_refs[0];
    assert_eq!(
        e.reference,
        "diff://NOTICE#sha256:d1a6c727fe9f74eedf0e8810fc7403d7b274746f917c28eedb66d0aa63c8fa44"
    );
    assert_eq!(e.kind, EvidenceKind::FileHash);
    assert_eq!(e.issuer, "wicket-guard");
    assert_eq!(e.subject, "bot");
    assert_eq!(e.valid_from, "2025-01-01T00:00:00Z");
    assert_eq!(e.valid_until, "2025-01-01T01:00:00Z");
    assert_eq!(e.status, ValidityStatus::Valid);
    assert!(i.precedence.evidence_refs.is_empty());
    assert_eq!(i.precedence.superseded_by, None);
    assert!(!i.revocation.basis_revoked && !i.revocation.standing_forbidden);
    assert!(i.revocation.evidence_refs.is_empty());
    assert_eq!(i.expected_effect, "mutate NOTICE contents");
    assert_eq!(i.call_timestamp, "2025-01-01T00:00:00Z");
    assert_eq!(i.prev_receipt_hash, None);
}

#[test]
fn content_hash_of_empty_and_unicode_changes() {
    let opts = CookOpts { actor: "a", standing: StandingClass::Execute, because: "b" };
    let empty = build_intent_at(AuthoritySurface::Codeowners, "CODEOWNERS", &None, &changes(&[], &[]), &opts, "t", "u");
    assert_eq!(
        empty.claimed_basis.evidence_refs[0].reference,
        "diff://CODEOWNERS#sha256:e3b0c44298fc1c149afbf4c8996fb92427ae41e4649b934ca495991b7852b855"
    );
    assert_eq!(empty.expected_effect, "mutate CODEOWNERS");
    let cafe = build_intent_at(AuthoritySurface::SecurityPolicy, "SECURITY.md", &None, &changes(&["caf\u{e9}"], &[]), &opts, "t", "u");
    assert_eq!(
        cafe.claimed_basis.evidence_refs[0].reference,
        "diff://SECURITY.md#sha256:76d37d47c65c002fbba74b1dc73f7cf60de812b4e81a790dbee1dcc6d05ced8a"
    );
    assert_eq!(cafe.expected_effect, "mutate SECURITY policy");
    assert_eq!(cafe.intended_action, "diff.security_policy_mutation");
}

#[test]
fn copyright_lines() {
    assert!(is_copyright_line("Copyright 2024 X"));
    assert!(is_copyright_line("   (c) X"));
    assert!(is_copyright_line("\t(C) X"));
    assert!(is_copyright_line("\u{00A9} 2024 X"));
    assert!(is_copyright_line("\u{3000}\u{a0}Copyright"));
    assert!(!is_copyright_line("copyright 2024"));
    assert!(!is_copyright_line("All rights reserved"));
    assert!(!is_copyright_line(""));
}

#[test]
fn license_edits_without_a_swap_are_whole_file() {
    let diff = "\
diff --git a/docs/LICENSE.md b/docs/LICENSE.md
+Copyright 2025 Someone
diff --git a/NOTICE b/NOTICE
-Copyright 2024 A
+Copyright 2025 B
";
    let opts = CookOpts { actor: "a", standing: StandingClass::Observe, because: "r" };
    let cooked = cook_diff(&parse(diff), &opts).expect("clock readable");
    assert_eq!(cooked.len(), 2);
    assert_eq!(cooked[0].path, "NOTICE");
    assert_eq!(cooked[0].surface, AuthoritySurface::Notice);
    assert_eq!(cooked[0].sub_target, None);
    assert_eq!(cooked[0].intent.target, "NOTICE");
    assert_eq!(cooked[1].path, "docs/LICENSE.md");
    assert_eq!(cooked[1].surface, AuthoritySurface::License);
    assert_eq!(cooked[1].sub_target, None);
    assert_eq!(cooked[1].intent.expected_effect, "mutate LICENSE contents");
}

#[test]
fn swap_effect_and_validity_window() {
    let opts = CookOpts { actor: "a", standing: StandingClass::Execute, because: "r" };
    let cooked = cook_diff(&parse(COPYRIGHT_HOLDER_SWAP), &opts).expect("clock readable");
    let i = &cooked[0].intent;
    assert_eq!(i.expected_effect, "mutate LICENSE copyright holder");
    assert_eq!(i.call_timestamp.len(), 20);
    assert!(i.call_timestamp.ends_with('Z'));
    let e = &i.claimed_basis.evidence_refs[0];
    assert_eq!(e.valid_from, i.call_timestamp);
    assert_eq!(
        e.reference,
        "diff://LICENSE#sha256:5e53fa7a2bdcd232e6cc23a4d0140c71fa56080f85e657a2ae9f1cf0597bbf4b"
    );
    let from = chrono::DateTime::parse_from_rfc3339(&e.valid_from).unwrap();
    let until = chrono::DateTime::parse_from_rfc3339(&e.valid_until).unwrap();
    assert_eq!((until - from).num_seconds(), 3600);
    let now = chrono::Utc::now().timestamp();
    assert!((now - from.timestamp()).abs() < 300);
}

#[test]
fn stamp_window_renders_an_hour() {
    let (a, b) = stamp_window(0).unwrap();
    assert_eq!(a, "1970-01-01T00:00:00Z");
    assert_eq!(b, "1970-01-01T01:00:00Z");
    let (a, b) = stamp_window(1_700_000_000).unwrap();
    assert_eq!(a, "2023-11-14T22:13:20Z");
    assert_eq!(b, "2023-11-14T23:13:20Z");
    assert_eq!(stamp_window(i64::MAX), Err(CookError::ClockOutOfRange { reading: i64::MAX }));
    assert_eq!(stamp_window(i64::MIN), Err(CookError::ClockOutOfRange { reading: i64::MIN }));
}

#[test]
fn cooked_paths_increase() {
    let diff = "diff --git a/z/NOTICE b/z/NOTICE\n+n\ndiff --git a/LICENSE b/LICENSE\n-l\ndiff --git a/a/CODEOWNERS b/a/CODEOWNERS\n+c\n";
    let opts = CookOpts { actor: "a", standing: StandingClass::Execute, because: "r" };
    let cooked = cook_diff(&parse(diff), &opts).unwrap();
    let paths: Vec<&str> = cooked.iter().map(|c| c.path.as_str()).collect();
    assert_eq!(paths, vec!["LICENSE", "a/CODEOWNERS", "z/NOTICE"]);
}

#[test]
fn clock_readings_as_seconds() {
    assert_eq!(reading_secs(Some(0)), Ok(0));
    assert_eq!(reading_secs(Some(1_700_000_000)), Ok(1_700_000_000));
    assert_eq!(reading_secs(Some(i64::MAX as u64)), Ok(i64::MAX));
    assert_eq!(reading_secs(Some(i64::MAX as u64 + 1)), Err(CookError::ClockUnreadable));
    assert_eq!(reading_secs(None), Err(CookError::ClockUnreadable));
}
