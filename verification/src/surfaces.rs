//! Classification of file paths into authority-bearing surfaces.
//!
//! These are files where an unauthorised mutation by an agent is the failure
//! this library exists to catch: identity, legal and ownership claims cannot
//! be inferred from the context of a diff.

use vstd::prelude::*;
use crate::text::chars_of;
use crate::text::range_equals;

verus! {

/// A category of file whose contents carry authority.
#[derive(Debug, Clone, Copy, PartialEq, Eq, Structural)]
pub enum AuthoritySurface {
    License,
    Notice,
    Codeowners,
    SecurityPolicy,
}

/// The stable lower-case name of a surface.
pub open spec fn surface_name(s: AuthoritySurface) -> Seq<char> {
    match s {
        AuthoritySurface::License => "license"@,
        AuthoritySurface::Notice => "notice"@,
        AuthoritySurface::Codeowners => "codeowners"@,
        AuthoritySurface::SecurityPolicy => "security_policy"@,
    }
}

impl AuthoritySurface {
    /// The stable lower-case name of this surface.
    pub fn as_str(self) -> (s: &'static str)
        ensures
            s@ == surface_name(self),
    {
        match self {
            AuthoritySurface::License => "license",
            AuthoritySurface::Notice => "notice",
            AuthoritySurface::Codeowners => "codeowners",
            AuthoritySurface::SecurityPolicy => "security_policy",
        }
    }
}

/// ASCII upper-casing of one character; every other character is unchanged.
pub open spec fn ascii_upper(c: char) -> char {
    if 'a' <= c && c <= 'z' {
        ((c as int) - 32) as char
    } else {
        c
    }
}

/// ASCII upper-casing of a whole sequence.
pub open spec fn ascii_upper_seq(s: Seq<char>) -> Seq<char> {
    s.map_values(|c: char| ascii_upper(c))
}

/// The last component of a `/`-separated path: what follows its last `/`,
/// or the whole path when it holds none.
pub open spec fn basename(p: Seq<char>) -> Seq<char>
    decreases p.len(),
{
    if p.len() == 0 {
        p
    } else if p.last() == '/' {
        Seq::empty()
    } else {
        basename(p.drop_last()).push(p.last())
    }
}

/// The surface named by an upper-cased file name, if any.
pub open spec fn surface_of_upper_name(n: Seq<char>) -> Option<AuthoritySurface> {
    if n == "LICENSE"@ || n == "LICENSE.MD"@ || n == "LICENSE.TXT"@ || n == "COPYING"@
        || n == "COPYING.MD"@ {
        Some(AuthoritySurface::License)
    } else if n == "NOTICE"@ || n == "NOTICE.MD"@ || n == "NOTICE.TXT"@ {
        Some(AuthoritySurface::Notice)
    } else if n == "CODEOWNERS"@ {
        Some(AuthoritySurface::Codeowners)
    } else if n == "SECURITY.MD"@ {
        Some(AuthoritySurface::SecurityPolicy)
    } else {
        None
    }
}

/// The surface of a path: decided by its last component alone, compared
/// without regard to ASCII case.
pub open spec fn path_surface(p: Seq<char>) -> Option<AuthoritySurface> {
    surface_of_upper_name(ascii_upper_seq(basename(p)))
}

/// ASCII upper-casing of one character.
fn upper_char(c: char) -> (r: char)
    ensures
        r == ascii_upper(c),
{
    if 'a' <= c && c <= 'z' {
        let b = c as u8;
        let u = (b - 32) as char;
        assert(b as int == c as int);
        u
    } else {
        c
    }
}

proof fn lemma_basename_after(p: Seq<char>, k: int)
    requires
        0 <= k <= p.len(),
        k == 0 || p[k - 1] == '/',
        forall|j: int| k <= j < p.len() ==> p[j] != '/',
    ensures
        basename(p) == p.skip(k),
    decreases p.len(),
{
    if p.len() == k {
        assert(p.skip(k) =~= Seq::<char>::empty());
    } else {
        let q = p.drop_last();
        assert forall|j: int| k <= j < q.len() implies q[j] != '/' by {
            assert(q[j] == p[j]);
        }
        if k > 0 {
            assert(q[k - 1] == p[k - 1]);
        }
        lemma_basename_after(q, k);
        assert(p.skip(k) =~= q.skip(k).push(p.last()));
    }
}

/// The surface that `path` belongs to, if any: its last `/`-separated
/// component, upper-cased in ASCII, is one of the canonical names.
pub fn classify_path(path: &str) -> (r: Option<AuthoritySurface>)
    ensures
        r == path_surface(path@),
{
    let chars = chars_of(path);
    let len = chars.len();
    let mut k = len;
    while k > 0 && chars[k - 1] != '/'
        invariant
            k <= len == chars@.len(),
            forall|j: int| k <= j < len ==> chars@[j] != '/',
        decreases k,
    {
        k = k - 1;
    }
    proof {
        lemma_basename_after(chars@, k as int);
    }
    let mut upper: Vec<char> = Vec::new();
    let mut i = k;
    while i < len
        invariant
            k <= i <= len == chars@.len(),
            upper@ == ascii_upper_seq(chars@.subrange(k as int, i as int)),
        decreases len - i,
    {
        let u = upper_char(chars[i]);
        upper.push(u);
        assert(chars@.subrange(k as int, i + 1) == chars@.subrange(k as int, i as int).push(chars@[i as int]));
        i = i + 1;
        assert(upper@ =~= ascii_upper_seq(chars@.subrange(k as int, i as int)));
    }
    assert(chars@.subrange(k as int, len as int) == chars@.skip(k as int));
    let n = upper.len();
    assert(upper@.subrange(0, n as int) == upper@);
    if range_equals(&upper, 0, n, "LICENSE") || range_equals(&upper, 0, n, "LICENSE.MD")
        || range_equals(&upper, 0, n, "LICENSE.TXT") || range_equals(&upper, 0, n, "COPYING")
        || range_equals(&upper, 0, n, "COPYING.MD") {
        Some(AuthoritySurface::License)
    } else if range_equals(&upper, 0, n, "NOTICE") || range_equals(&upper, 0, n, "NOTICE.MD")
        || range_equals(&upper, 0, n, "NOTICE.TXT") {
        Some(AuthoritySurface::Notice)
    } else if range_equals(&upper, 0, n, "CODEOWNERS") {
        Some(AuthoritySurface::Codeowners)
    } else if range_equals(&upper, 0, n, "SECURITY.MD") {
        Some(AuthoritySurface::SecurityPolicy)
    } else {
        None
    }
}


/// The surface names are distinct: `as_str` tells surfaces apart.
pub proof fn law_surface_names_distinct(a: AuthoritySurface, b: AuthoritySurface)
    requires
        surface_name(a) == surface_name(b),
    ensures
        a == b,
{
    reveal_strlit("license");
    reveal_strlit("notice");
    reveal_strlit("codeowners");
    reveal_strlit("security_policy");
    assert("license"@.len() == 7);
    assert("notice"@.len() == 6);
    assert("codeowners"@.len() == 10);
    assert("security_policy"@.len() == 15);
}

proof fn lemma_basename_append(d: Seq<char>, b: Seq<char>)
    ensures
        basename(d.push('/') + b) == basename(b),
    decreases b.len(),
{
    if b.len() == 0 {
        assert(d.push('/') + b =~= d.push('/'));
    } else {
        assert((d.push('/') + b).drop_last() =~= d.push('/') + b.drop_last());
        lemma_basename_append(d, b.drop_last());
    }
}

/// Only the last component of a path decides its surface: a file keeps its
/// surface under any directory.
pub proof fn law_surface_ignores_directories(dir: Seq<char>, name: Seq<char>)
    ensures
        path_surface(dir.push('/') + name) == path_surface(name),
{
    lemma_basename_append(dir, name);
}

proof fn lemma_basename_upper(p: Seq<char>)
    ensures
        basename(ascii_upper_seq(p)) == ascii_upper_seq(basename(p)),
    decreases p.len(),
{
    if p.len() > 0 {
        assert(ascii_upper_seq(p).drop_last() =~= ascii_upper_seq(p.drop_last()));
        lemma_basename_upper(p.drop_last());
        if p.last() != '/' {
            assert(ascii_upper_seq(basename(p.drop_last()).push(p.last())) =~= ascii_upper_seq(
                basename(p.drop_last()),
            ).push(ascii_upper(p.last())));
        } else {
            assert(ascii_upper_seq(Seq::<char>::empty()) =~= Seq::<char>::empty());
        }
    }
}

/// Classification ignores ASCII case: upper-casing a path keeps its surface.
pub proof fn law_surface_ignores_case(p: Seq<char>)
    ensures
        path_surface(ascii_upper_seq(p)) == path_surface(p),
{
    lemma_basename_upper(p);
    let b = basename(p);
    assert(ascii_upper_seq(ascii_upper_seq(b)) =~= ascii_upper_seq(b));
}


/// The canonical names, by surface. A path is classified by its last
/// component upper-cased in ASCII: LICENSE, LICENSE.MD, LICENSE.TXT,
/// COPYING and COPYING.MD are the license; NOTICE, NOTICE.MD and
/// NOTICE.TXT the notice; CODEOWNERS the code owners; SECURITY.MD the
/// security policy; every other name is no surface.
pub proof fn law_canonical_names(p: Seq<char>)
    ensures
        ascii_upper_seq(basename(p)) == "LICENSE"@ ==> path_surface(p) == Some(AuthoritySurface::License),
        ascii_upper_seq(basename(p)) == "LICENSE.MD"@ ==> path_surface(p) == Some(AuthoritySurface::License),
        ascii_upper_seq(basename(p)) == "LICENSE.TXT"@ ==> path_surface(p) == Some(AuthoritySurface::License),
        ascii_upper_seq(basename(p)) == "COPYING"@ ==> path_surface(p) == Some(AuthoritySurface::License),
        ascii_upper_seq(basename(p)) == "COPYING.MD"@ ==> path_surface(p) == Some(AuthoritySurface::License),
        ascii_upper_seq(basename(p)) == "NOTICE"@ ==> path_surface(p) == Some(AuthoritySurface::Notice),
        ascii_upper_seq(basename(p)) == "NOTICE.MD"@ ==> path_surface(p) == Some(AuthoritySurface::Notice),
        ascii_upper_seq(basename(p)) == "NOTICE.TXT"@ ==> path_surface(p) == Some(AuthoritySurface::Notice),
        ascii_upper_seq(basename(p)) == "CODEOWNERS"@ ==> path_surface(p) == Some(AuthoritySurface::Codeowners),
        ascii_upper_seq(basename(p)) == "SECURITY.MD"@ ==> path_surface(p) == Some(AuthoritySurface::SecurityPolicy),
        ({
            let n = ascii_upper_seq(basename(p));
            n != "LICENSE"@ && n != "LICENSE.MD"@ && n != "LICENSE.TXT"@ && n != "COPYING"@
                && n != "COPYING.MD"@ && n != "NOTICE"@ && n != "NOTICE.MD"@ && n != "NOTICE.TXT"@
                && n != "CODEOWNERS"@ && n != "SECURITY.MD"@
        }) ==> path_surface(p) is None,
{
    reveal_strlit("LICENSE");
    reveal_strlit("LICENSE.MD");
    reveal_strlit("LICENSE.TXT");
    reveal_strlit("COPYING");
    reveal_strlit("COPYING.MD");
    reveal_strlit("NOTICE");
    reveal_strlit("NOTICE.MD");
    reveal_strlit("NOTICE.TXT");
    reveal_strlit("CODEOWNERS");
    reveal_strlit("SECURITY.MD");
    let n = ascii_upper_seq(basename(p));
    assert("COPYING"@[1] != "LICENSE"@[1]);
    assert("COPYING.MD"@[0] != "LICENSE.MD"@[0]);
    assert("NOTICE"@.len() != "LICENSE"@.len() && "NOTICE"@.len() != "COPYING"@.len());
    assert("NOTICE.MD"@.len() != "LICENSE"@.len() && "NOTICE.MD"@.len() != "LICENSE.MD"@.len()
        && "NOTICE.MD"@.len() != "LICENSE.TXT"@.len() && "NOTICE.MD"@.len() != "COPYING"@.len()
        && "NOTICE.MD"@.len() != "COPYING.MD"@.len());
    assert("NOTICE.TXT"@[0] != "LICENSE.MD"@[0] && "NOTICE.TXT"@[0] != "COPYING.MD"@[0]
        && "NOTICE.TXT"@.len() != "LICENSE.TXT"@.len() && "NOTICE.TXT"@.len() != "LICENSE"@.len()
        && "NOTICE.TXT"@.len() != "COPYING"@.len());
    assert("CODEOWNERS"@[0] != "LICENSE.MD"@[0] && "CODEOWNERS"@[2] != "COPYING.MD"@[2]
        && "CODEOWNERS"@[0] != "NOTICE.TXT"@[0] && "CODEOWNERS"@.len() != "LICENSE"@.len()
        && "CODEOWNERS"@.len() != "LICENSE.TXT"@.len() && "CODEOWNERS"@.len() != "COPYING"@.len()
        && "CODEOWNERS"@.len() != "NOTICE"@.len() && "CODEOWNERS"@.len() != "NOTICE.MD"@.len());
    assert("SECURITY.MD"@[0] != "LICENSE.TXT"@[0] && "SECURITY.MD"@.len() != "LICENSE"@.len()
        && "SECURITY.MD"@.len() != "LICENSE.MD"@.len() && "SECURITY.MD"@.len() != "COPYING"@.len()
        && "SECURITY.MD"@.len() != "COPYING.MD"@.len() && "SECURITY.MD"@.len() != "NOTICE"@.len()
        && "SECURITY.MD"@.len() != "NOTICE.MD"@.len() && "SECURITY.MD"@.len() != "NOTICE.TXT"@.len()
        && "SECURITY.MD"@.len() != "CODEOWNERS"@.len());
}

} // verus!
