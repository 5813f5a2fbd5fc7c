use wicket_guard::surfaces::{classify_path, AuthoritySurface};

#[test]
fn classifies_canonical_names() {
    assert_eq!(classify_path("LICENSE"), Some(AuthoritySurface::License));
    assert_eq!(classify_path("NOTICE"), Some(AuthoritySurface::Notice));
    assert_eq!(
        classify_path(".github/CODEOWNERS"),
        Some(AuthoritySurface::Codeowners),
    );
    assert_eq!(
        classify_path("SECURITY.md"),
        Some(AuthoritySurface::SecurityPolicy),
    );
    assert_eq!(classify_path("src/main.rs"), None);
}

#[test]
fn classification_ignores_case_and_directories() {
    assert_eq!(classify_path("license.txt"), Some(AuthoritySurface::License));
    assert_eq!(classify_path("a/b/Copying.Md"), Some(AuthoritySurface::License));
    assert_eq!(classify_path("docs/notice.md"), Some(AuthoritySurface::Notice));
    assert_eq!(classify_path("x/Notice.TXT"), Some(AuthoritySurface::Notice));
    assert_eq!(classify_path("security.MD"), Some(AuthoritySurface::SecurityPolicy));
}

#[test]
fn near_misses_are_not_surfaces() {
    assert_eq!(classify_path("LICENSE/"), None);
    assert_eq!(classify_path("LICENSES"), None);
    assert_eq!(classify_path("SECURITY"), None);
    assert_eq!(classify_path(""), None);
    assert_eq!(classify_path("CODEOWNERS.md"), None);
}

#[test]
fn surface_names() {
    assert_eq!(AuthoritySurface::License.as_str(), "license");
    assert_eq!(AuthoritySurface::Notice.as_str(), "notice");
    assert_eq!(AuthoritySurface::Codeowners.as_str(), "codeowners");
    assert_eq!(AuthoritySurface::SecurityPolicy.as_str(), "security_policy");
}
