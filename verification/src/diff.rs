//! A minimal unified-diff parser.
//!
//! Just enough to extract, per file, the lines a diff adds and removes, for
//! surface classification. It does not validate hunk arithmetic, handle
//! binary patches or track line numbers.

use vstd::prelude::*;
use crate::order::{lemma_lt_irreflexive, lemma_lt_total, lemma_lt_transitive, seq_lt, str_lt};
use crate::text::{chars_of, has_prefix, push_char, seq_starts_with, string_from_range};

verus! {

/// The lines one file gains and loses, as character sequences.
pub struct ChangeLog {
    pub added: Seq<Seq<char>>,
    pub removed: Seq<Seq<char>>,
}

/// A log with no lines.
pub open spec fn empty_log() -> ChangeLog {
    ChangeLog { added: Seq::empty(), removed: Seq::empty() }
}

/// The lines a diff adds to and removes from one file, without their
/// leading `+` or `-`.
#[derive(Debug, Clone)]
pub struct FileChanges {
    pub added: Vec<String>,
    pub removed: Vec<String>,
}

/// The character sequences of a vector of strings.
pub open spec fn strings_view(v: Seq<String>) -> Seq<Seq<char>> {
    v.map_values(|s: String| s@)
}

impl View for FileChanges {
    type V = ChangeLog;

    open spec fn view(&self) -> ChangeLog {
        ChangeLog { added: strings_view(self.added@), removed: strings_view(self.removed@) }
    }
}

impl FileChanges {
    /// Changes with no lines.
    pub fn new() -> (fc: FileChanges)
        ensures
            fc@ == empty_log(),
    {
        let fc = FileChanges { added: Vec::new(), removed: Vec::new() };
        assert(fc@.added =~= Seq::<Seq<char>>::empty());
        assert(fc@.removed =~= Seq::<Seq<char>>::empty());
        fc
    }
}

/// A parsed diff: one entry per file path, in increasing order of path.
#[derive(Debug, Clone)]
pub struct ParsedDiff {
    pub files: Vec<(String, FileChanges)>,
}

/// The paths of `files` strictly increase.
pub open spec fn keys_sorted(files: Seq<(String, FileChanges)>) -> bool {
    forall|i: int, j: int|
        #![trigger files[i], files[j]]
        0 <= i < j < files.len() ==> seq_lt(files[i].0@, files[j].0@)
}

/// `files` lists exactly the entries of the map `m`.
pub open spec fn represents(files: Seq<(String, FileChanges)>, m: Map<Seq<char>, ChangeLog>) -> bool {
    &&& forall|k: Seq<char>|
        #[trigger] m.contains_key(k) <==> exists|i: int| 0 <= i < files.len() && files[i].0@ == k
    &&& forall|i: int| 0 <= i < files.len() ==> m[#[trigger] files[i].0@] == files[i].1@
}

/// Where the parser stands after some lines: the file whose hunks it is in,
/// if any, and what it has collected per file.
pub struct ParseState {
    pub current: Option<Seq<char>>,
    pub files: Map<Seq<char>, ChangeLog>,
}

/// The state before any line.
pub open spec fn initial_state() -> ParseState {
    ParseState { current: None, files: Map::empty() }
}

/// The path of a `diff --git a/PATH b/PATH` header: what follows `a/` up to
/// the first ` b/`, or to the end of the line.
pub open spec fn first_field(rest: Seq<char>) -> Seq<char>
    decreases rest.len(),
{
    if rest.len() == 0 || seq_starts_with(rest, " b/"@) {
        Seq::empty()
    } else {
        seq![rest[0]] + first_field(rest.drop_first())
    }
}

/// The path a header line names, or `None` for any other line.
pub open spec fn header_path(line: Seq<char>) -> Option<Seq<char>> {
    if seq_starts_with(line, "diff --git a/"@) {
        Some(first_field(line.skip("diff --git a/"@.len() as int)))
    } else {
        None
    }
}

/// The extended-header and hunk-header lines that carry no content.
pub open spec fn is_meta_line(line: Seq<char>) -> bool {
    ||| seq_starts_with(line, "--- "@)
    ||| seq_starts_with(line, "+++ "@)
    ||| seq_starts_with(line, "@@"@)
    ||| seq_starts_with(line, "index "@)
    ||| seq_starts_with(line, "new file mode"@)
    ||| seq_starts_with(line, "deleted file mode"@)
    ||| seq_starts_with(line, "similarity index"@)
    ||| seq_starts_with(line, "rename from"@)
    ||| seq_starts_with(line, "rename to"@)
}

/// A content line adds to or removes from `log`, by its first character.
pub open spec fn record_line(log: ChangeLog, line: Seq<char>) -> ChangeLog {
    if line.len() > 0 && line[0] == '+' {
        ChangeLog { added: log.added.push(line.drop_first()), removed: log.removed }
    } else if line.len() > 0 && line[0] == '-' {
        ChangeLog { added: log.added, removed: log.removed.push(line.drop_first()) }
    } else {
        log
    }
}

/// What one line does to the parser's state. A header switches the current
/// file; a meta line, or any line before the first header, is skipped; any
/// other line gives the current file an entry, and a `+` or `-` line is
/// recorded in it.
pub open spec fn parse_step(st: ParseState, line: Seq<char>) -> ParseState {
    match header_path(line) {
        Some(p) => ParseState { current: Some(p), files: st.files },
        None => {
            if is_meta_line(line) || st.current is None {
                st
            } else {
                let p = st.current->0;
                let log = if st.files.contains_key(p) { st.files[p] } else { empty_log() };
                ParseState { current: st.current, files: st.files.insert(p, record_line(log, line)) }
            }
        },
    }
}

/// The state after the given lines, in order.
pub open spec fn parse_lines(lines: Seq<Seq<char>>) -> ParseState
    decreases lines.len(),
{
    if lines.len() == 0 {
        initial_state()
    } else {
        parse_step(parse_lines(lines.drop_last()), lines.last())
    }
}

/// A line without its `\r` terminator part, if any.
pub open spec fn strip_cr(t: Seq<char>) -> Seq<char> {
    if t.len() > 0 && t.last() == '\r' {
        t.drop_last()
    } else {
        t
    }
}

/// The lines of `s` that a `\n` ends, each without its `\n` and with a
/// `\r` before it removed.
pub open spec fn finished_lines(s: Seq<char>) -> Seq<Seq<char>>
    decreases s.len(),
{
    if s.len() == 0 {
        Seq::empty()
    } else if s.last() == '\n' {
        finished_lines(s.drop_last()).push(strip_cr(open_line(s.drop_last())))
    } else {
        finished_lines(s.drop_last())
    }
}

/// What follows the last `\n` of `s` (all of `s` if it holds none).
pub open spec fn open_line(s: Seq<char>) -> Seq<char>
    decreases s.len(),
{
    if s.len() == 0 {
        Seq::empty()
    } else if s.last() == '\n' {
        Seq::empty()
    } else {
        open_line(s.drop_last()).push(s.last())
    }
}

/// The lines of a text, as `str::lines` yields them: split at `\n` or
/// `\r\n`, with a final line ending optional.
pub open spec fn text_lines(s: Seq<char>) -> Seq<Seq<char>> {
    if open_line(s).len() > 0 {
        finished_lines(s).push(open_line(s))
    } else {
        finished_lines(s)
    }
}

/// What a whole diff text parses to.
pub open spec fn parse_text(s: Seq<char>) -> ParseState {
    parse_lines(text_lines(s))
}

/// The view of the parser's current file.
pub open spec fn current_view(cur: Option<String>) -> Option<Seq<char>> {
    match cur {
        Some(p) => Some(p@),
        None => None,
    }
}

proof fn lemma_first_field(r: Seq<char>, i: int)
    requires
        0 <= i <= r.len(),
        forall|j: int| 0 <= j < i ==> !seq_starts_with(#[trigger] r.skip(j), " b/"@),
        i == r.len() || seq_starts_with(r.skip(i), " b/"@),
    ensures
        first_field(r) == r.take(i),
    decreases i,
{
    if i == 0 {
        assert(r.skip(0) =~= r);
        assert(r.take(0) =~= Seq::<char>::empty());
    } else {
        assert(r.skip(0) =~= r);
        let q = r.drop_first();
        assert forall|j: int| 0 <= j < i - 1 implies !seq_starts_with(#[trigger] q.skip(j), " b/"@) by {
            assert(q.skip(j) =~= r.skip(j + 1));
        }
        assert(q.skip(i - 1) =~= r.skip(i));
        lemma_first_field(q, i - 1);
        assert(r.take(i) =~= seq![r[0]] + q.take(i - 1));
    }
}


proof fn lemma_sorted_keys_distinct(files: Seq<(String, FileChanges)>, i: int, j: int)
    requires
        keys_sorted(files),
        0 <= i < files.len(),
        0 <= j < files.len(),
        i != j,
    ensures
        files[i].0@ != files[j].0@,
{
    lemma_lt_irreflexive(files[i].0@);
    if i < j {
        assert(seq_lt(files[i].0@, files[j].0@));
    } else {
        assert(seq_lt(files[j].0@, files[i].0@));
    }
}

proof fn lemma_represents_insert(
    old_files: Seq<(String, FileChanges)>,
    m: Map<Seq<char>, ChangeLog>,
    idx: int,
    entry: (String, FileChanges),
)
    requires
        represents(old_files, m),
        0 <= idx <= old_files.len(),
        !m.contains_key(entry.0@),
    ensures
        represents(old_files.insert(idx, entry), m.insert(entry.0@, entry.1@)),
{
    let f = old_files.insert(idx, entry);
    let m2 = m.insert(entry.0@, entry.1@);
    assert forall|k: Seq<char>| #[trigger] m2.contains_key(k) <==> exists|i: int|
        0 <= i < f.len() && f[i].0@ == k by {
        if m2.contains_key(k) {
            if k == entry.0@ {
                assert(f[idx].0@ == k);
            } else {
                let i = choose|i: int| 0 <= i < old_files.len() && old_files[i].0@ == k;
                if i < idx {
                    assert(f[i] == old_files[i]);
                } else {
                    assert(f[i + 1] == old_files[i]);
                }
            }
        }
        if exists|i: int| 0 <= i < f.len() && f[i].0@ == k {
            let i = choose|i: int| 0 <= i < f.len() && f[i].0@ == k;
            if i < idx {
                assert(f[i] == old_files[i]);
            } else if i > idx {
                assert(f[i] == old_files[i - 1]);
            }
        }
    }
    assert forall|i: int| 0 <= i < f.len() implies m2[#[trigger] f[i].0@] == f[i].1@ by {
        if i < idx {
            assert(f[i] == old_files[i]);
            assert(m.contains_key(old_files[i].0@));
        } else if i > idx {
            assert(f[i] == old_files[i - 1]);
            assert(m.contains_key(old_files[i - 1].0@));
        }
    }
}

proof fn lemma_represents_update(
    files: Seq<(String, FileChanges)>,
    m: Map<Seq<char>, ChangeLog>,
    idx: int,
    entry: (String, FileChanges),
)
    requires
        represents(files, m),
        keys_sorted(files),
        0 <= idx < files.len(),
        entry.0@ == files[idx].0@,
    ensures
        represents(files.update(idx, entry), m.insert(entry.0@, entry.1@)),
        keys_sorted(files.update(idx, entry)),
{
    let f = files.update(idx, entry);
    let m2 = m.insert(entry.0@, entry.1@);
    assert forall|k: Seq<char>| #[trigger] m2.contains_key(k) <==> exists|i: int|
        0 <= i < f.len() && f[i].0@ == k by {
        if m2.contains_key(k) {
            if k == entry.0@ {
                assert(f[idx].0@ == k);
            } else {
                let i = choose|i: int| 0 <= i < files.len() && files[i].0@ == k;
                assert(f[i] == files[i]);
            }
        }
        if exists|i: int| 0 <= i < f.len() && f[i].0@ == k {
            let i = choose|i: int| 0 <= i < f.len() && f[i].0@ == k;
            if i != idx {
                assert(f[i] == files[i]);
            }
        }
    }
    assert forall|i: int| 0 <= i < f.len() implies m2[#[trigger] f[i].0@] == f[i].1@ by {
        if i != idx {
            lemma_sorted_keys_distinct(files, i, idx);
            assert(f[i] == files[i]);
        }
    }
    assert forall|i: int, j: int| 0 <= i < j < f.len() implies seq_lt(#[trigger] f[i].0@, #[trigger] f[j].0@) by {
        assert(seq_lt(files[i].0@, files[j].0@));
    }
}

/// The index of the entry for `path`, which is added, empty and in order,
/// when there is none.
fn find_or_insert(files: &mut Vec<(String, FileChanges)>, path: &String) -> (idx: usize)
    requires
        keys_sorted(old(files)@),
    ensures
        keys_sorted(final(files)@),
        idx < final(files)@.len(),
        idx <= old(files)@.len(),
        final(files)@[idx as int].0@ == path@,
        (exists|j: int| 0 <= j < old(files)@.len() && old(files)@[j].0@ == path@)
            ==> final(files)@ == old(files)@,
        !(exists|j: int| 0 <= j < old(files)@.len() && old(files)@[j].0@ == path@)
            ==> final(files)@ == old(files)@.insert(idx as int, final(files)@[idx as int])
            && final(files)@[idx as int].1@ == empty_log(),
{
    let mut i: usize = 0;
    while i < files.len() && str_lt(files[i].0.as_str(), path.as_str())
        invariant
            i <= files@.len(),
            files@ == old(files)@,
            keys_sorted(files@),
            forall|j: int| 0 <= j < i ==> seq_lt(#[trigger] files@[j].0@, path@),
        decreases files@.len() - i,
    {
        i = i + 1;
    }
    if i < files.len() && files[i].0 == *path {
        return i;
    }
    proof {
        assert forall|j: int| 0 <= j < files@.len() implies files@[j].0@ != path@ by {
            if j < i {
                lemma_lt_irreflexive(path@);
            } else {
                if files@[j].0@ == path@ {
                    if j > i {
                        assert(seq_lt(files@[i as int].0@, files@[j].0@));
                        lemma_lt_transitive(files@[i as int].0@, path@, path@);
                        lemma_lt_irreflexive(path@);
                    }
                }
            }
        }
        if i < files@.len() {
            lemma_lt_total(files@[i as int].0@, path@);
        }
    }
    let ghost before = files@;
    files.insert(i, (path.clone(), FileChanges::new()));
    proof {
        assert forall|a: int, b: int| 0 <= a < b < files@.len() implies seq_lt(
            #[trigger] files@[a].0@,
            #[trigger] files@[b].0@,
        ) by {
            if b < i {
                assert(files@[a] == before[a] && files@[b] == before[b]);
            } else if b == i {
                assert(files@[a] == before[a]);
            } else if a == i {
                assert(files@[b] == before[b - 1]);
                if b - 1 > i {
                    assert(seq_lt(before[i as int].0@, before[b - 1].0@));
                    lemma_lt_transitive(path@, before[i as int].0@, before[b - 1].0@);
                }
            } else if a < i {
                assert(files@[a] == before[a] && files@[b] == before[b - 1]);
            } else {
                assert(files@[a] == before[a - 1] && files@[b] == before[b - 1]);
            }
        }
    }
    i
}


/// Whether the characters `v[start..end]` form a meta line.
fn meta_line(v: &Vec<char>, start: usize, end: usize) -> (b: bool)
    requires
        start <= end <= v@.len(),
    ensures
        b == is_meta_line(v@.subrange(start as int, end as int)),
{
    has_prefix(v, start, end, "--- ") || has_prefix(v, start, end, "+++ ") || has_prefix(
        v,
        start,
        end,
        "@@",
    ) || has_prefix(v, start, end, "index ") || has_prefix(v, start, end, "new file mode")
        || has_prefix(v, start, end, "deleted file mode") || has_prefix(
        v,
        start,
        end,
        "similarity index",
    ) || has_prefix(v, start, end, "rename from") || has_prefix(v, start, end, "rename to")
}

/// Applies the line `v[start..end]` to the parser's state.
fn process_line(
    v: &Vec<char>,
    start: usize,
    end: usize,
    current: &mut Option<String>,
    files: &mut Vec<(String, FileChanges)>,
    Ghost(m): Ghost<Map<Seq<char>, ChangeLog>>,
)
    requires
        start <= end <= v@.len(),
        keys_sorted(old(files)@),
        represents(old(files)@, m),
    ensures
        keys_sorted(final(files)@),
        ({
            let next = parse_step(
                ParseState { current: current_view(*old(current)), files: m },
                v@.subrange(start as int, end as int),
            );
            &&& current_view(*final(current)) == next.current
            &&& represents(final(files)@, next.files)
        }),
{
    let ghost line = v@.subrange(start as int, end as int);
    let header = "diff --git a/";
    if has_prefix(v, start, end, header) {
        let hs = start + header.unicode_len();
        let mut j = hs;
        while j < end && !has_prefix(v, j, end, " b/")
            invariant
                start <= hs <= j <= end <= v@.len(),
                forall|t: int|
                    hs <= t < j ==> !seq_starts_with(#[trigger] v@.subrange(t, end as int), " b/"@),
            decreases end - j,
        {
            j = j + 1;
        }
        proof {
            let r = line.skip(header@.len() as int);
            assert(r =~= v@.subrange(hs as int, end as int));
            assert forall|t: int| 0 <= t < j - hs implies !seq_starts_with(#[trigger] r.skip(t), " b/"@) by {
                assert(r.skip(t) =~= v@.subrange(hs + t, end as int));
            }
            assert(r.skip(j - hs) =~= v@.subrange(j as int, end as int));
            lemma_first_field(r, j - hs);
            assert(r.take(j - hs) =~= v@.subrange(hs as int, j as int));
        }
        *current = Some(string_from_range(v, hs, j));
        return;
    }
    if meta_line(v, start, end) {
        return;
    }
    let path = match current {
        Some(p) => p.clone(),
        None => {
            return;
        },
    };
    let ghost log = if m.contains_key(path@) { m[path@] } else { empty_log() };
    let ghost before = files@;
    let idx = find_or_insert(files, &path);
    proof {
        if exists|j: int| 0 <= j < before.len() && before[j].0@ == path@ {
            assert(m.contains_key(path@));
            assert(represents(files@, m));
            assert(log == files@[idx as int].1@);
        } else {
            lemma_represents_insert(before, m, idx as int, files@[idx as int]);
            assert(m.insert(path@, empty_log()).insert(path@, empty_log()) == m.insert(path@, empty_log()));
        }
    }
    let ghost m1 = if m.contains_key(path@) { m } else { m.insert(path@, empty_log()) };
    assert(represents(files@, m1));
    assert(m1[path@] == log);
    let ghost f1 = files@;
    let (key, mut fc) = files.remove(idx);
    if end > start && v[start] == '+' {
        let text = string_from_range(v, start + 1, end);
        fc.added.push(text);
        proof {
            assert(line.drop_first() =~= text@);
            assert(fc@.added =~= log.added.push(line.drop_first()));
        }
    } else if end > start && v[start] == '-' {
        let text = string_from_range(v, start + 1, end);
        fc.removed.push(text);
        proof {
            assert(line.drop_first() =~= text@);
            assert(fc@.removed =~= log.removed.push(line.drop_first()));
        }
    }
    let ghost entry = (key, fc);
    assert(fc@ == record_line(log, line));
    files.insert(idx, (key, fc));
    proof {
        assert(files@ =~= f1.update(idx as int, files@[idx as int]));
        lemma_represents_update(f1, m1, idx as int, files@[idx as int]);
        assert(m1.insert(path@, fc@) =~= m.insert(path@, record_line(log, line)));
    }
}


/// Parses a unified diff. Each file gets one entry, keyed by the path of its
/// `diff --git a/` header, listing the `+` and `-` lines of its hunks in
/// order; the entries come in increasing order of path.
pub fn parse(input: &str) -> (out: ParsedDiff)
    ensures
        keys_sorted(out.files@),
        represents(out.files@, parse_text(input@).files),
{
    let v = chars_of(input);
    let mut files: Vec<(String, FileChanges)> = Vec::new();
    let mut current: Option<String> = None;
    let mut ls: usize = 0;
    let mut pos: usize = 0;
    assert(v@.take(0) =~= Seq::<char>::empty());
    assert(v@.subrange(0, 0) =~= Seq::<char>::empty());
    while pos < v.len()
        invariant
            ls <= pos <= v@.len(),
            v@ == input@,
            open_line(v@.take(pos as int)) == v@.subrange(ls as int, pos as int),
            keys_sorted(files@),
            current_view(current) == parse_lines(finished_lines(v@.take(pos as int))).current,
            represents(files@, parse_lines(finished_lines(v@.take(pos as int))).files),
        decreases v@.len() - pos,
    {
        let ghost before = v@.take(pos as int);
        let ghost after = v@.take(pos + 1);
        assert(after.drop_last() =~= before);
        if v[pos] == '\n' {
            let le = if pos > ls && v[pos - 1] == '\r' {
                pos - 1
            } else {
                pos
            };
            let ghost st = parse_lines(finished_lines(before));
            let ghost line = strip_cr(v@.subrange(ls as int, pos as int));
            assert(line =~= v@.subrange(ls as int, le as int));
            assert(ParseState { current: current_view(current), files: st.files } == st);
            process_line(&v, ls, le, &mut current, &mut files, Ghost(st.files));
            proof {
                let fin = finished_lines(before);
                assert(finished_lines(after) == fin.push(line));
                assert(fin.push(line).drop_last() =~= fin);
                assert(open_line(after) =~= v@.subrange(pos + 1, pos + 1));
            }
            ls = pos + 1;
        } else {
            proof {
                assert(v@.subrange(ls as int, pos + 1) =~= v@.subrange(ls as int, pos as int).push(
                    v@[pos as int],
                ));
            }
        }
        pos = pos + 1;
    }
    assert(v@.take(v@.len() as int) =~= v@);
    if ls < v.len() {
        let ghost st = parse_lines(finished_lines(v@));
        assert(ParseState { current: current_view(current), files: st.files } == st);
        process_line(&v, ls, v.len(), &mut current, &mut files, Ghost(st.files));
        proof {
            let lines = text_lines(v@);
            assert(lines.drop_last() =~= finished_lines(v@));
        }
    }
    ParsedDiff { files }
}


impl ParsedDiff {
    /// A diff with no files.
    pub fn new() -> (d: ParsedDiff)
        ensures
            d.files@.len() == 0,
    {
        ParsedDiff { files: Vec::new() }
    }

    /// The changes recorded for `path`, if the diff has an entry for it.
    pub fn get(&self, path: &str) -> (r: Option<&FileChanges>)
        ensures
            match r {
                Some(fc) => exists|i: int|
                    0 <= i < self.files@.len() && self.files@[i].0@ == path@ && self.files@[i].1
                        == *fc,
                None => forall|i: int|
                    0 <= i < self.files@.len() ==> #[trigger] self.files@[i].0@ != path@,
            },
    {
        let target = String::from_str(path);
        let mut i: usize = 0;
        while i < self.files.len()
            invariant
                i <= self.files@.len(),
                target@ == path@,
                forall|j: int| 0 <= j < i ==> #[trigger] self.files@[j].0@ != path@,
            decreases self.files@.len() - i,
        {
            if self.files[i].0 == target {
                return Some(&self.files[i].1);
            }
            i = i + 1;
        }
        None
    }

    /// Whether the diff has an entry for `path`.
    pub fn contains_key(&self, path: &str) -> (b: bool)
        ensures
            b == exists|i: int| 0 <= i < self.files@.len() && self.files@[i].0@ == path@,
    {
        match self.get(path) {
            Some(_) => true,
            None => false,
        }
    }
}

impl Default for FileChanges {
    fn default() -> (fc: FileChanges)
        ensures
            fc@ == empty_log(),
    {
        FileChanges::new()
    }
}

impl Default for ParsedDiff {
    fn default() -> (d: ParsedDiff)
        ensures
            d.files@.len() == 0,
    {
        ParsedDiff::new()
    }
}

/// Lines before the first `diff --git` header, and a text with no header
/// at all, give no files.
pub proof fn law_no_header_no_files(lines: Seq<Seq<char>>)
    requires
        forall|i: int| 0 <= i < lines.len() ==> header_path(#[trigger] lines[i]) is None,
    ensures
        parse_lines(lines) == initial_state(),
    decreases lines.len(),
{
    if lines.len() > 0 {
        assert forall|i: int| 0 <= i < lines.len() - 1 implies header_path(
            #[trigger] lines.drop_last()[i],
        ) is None by {
            assert(lines.drop_last()[i] == lines[i]);
        }
        law_no_header_no_files(lines.drop_last());
        assert(header_path(lines[lines.len() - 1]) is None);
    }
}


/// The state after the given lines, starting from `st`.
pub open spec fn parse_lines_from(st: ParseState, lines: Seq<Seq<char>>) -> ParseState
    decreases lines.len(),
{
    if lines.len() == 0 {
        st
    } else {
        parse_step(parse_lines_from(st, lines.drop_last()), lines.last())
    }
}

/// The log recorded for `k`, or an empty log when there is none.
pub open spec fn log_or_empty(m: Map<Seq<char>, ChangeLog>, k: Seq<char>) -> ChangeLog {
    if m.contains_key(k) {
        m[k]
    } else {
        empty_log()
    }
}

/// One log's lines followed by another's.
pub open spec fn join_logs(x: ChangeLog, y: ChangeLog) -> ChangeLog {
    ChangeLog { added: x.added + y.added, removed: x.removed + y.removed }
}

/// Two parses combined: every file of either, with the first's lines
/// followed by the second's.
pub open spec fn merge_files(f: Map<Seq<char>, ChangeLog>, g: Map<Seq<char>, ChangeLog>) -> Map<
    Seq<char>,
    ChangeLog,
> {
    Map::new(
        |k: Seq<char>| f.contains_key(k) || g.contains_key(k),
        |k: Seq<char>| join_logs(log_or_empty(f, k), log_or_empty(g, k)),
    )
}

proof fn lemma_parse_lines_from_initial(lines: Seq<Seq<char>>)
    ensures
        parse_lines(lines) == parse_lines_from(initial_state(), lines),
    decreases lines.len(),
{
    if lines.len() > 0 {
        lemma_parse_lines_from_initial(lines.drop_last());
    }
}

proof fn lemma_parse_lines_from_concat(st: ParseState, a: Seq<Seq<char>>, b: Seq<Seq<char>>)
    ensures
        parse_lines_from(st, a + b) == parse_lines_from(parse_lines_from(st, a), b),
    decreases b.len(),
{
    if b.len() == 0 {
        assert(a + b =~= a);
    } else {
        assert((a + b).drop_last() =~= a + b.drop_last());
        assert((a + b).last() == b.last());
        lemma_parse_lines_from_concat(st, a, b.drop_last());
    }
}

proof fn lemma_record_join(x: ChangeLog, y: ChangeLog, line: Seq<char>)
    ensures
        record_line(join_logs(x, y), line) == join_logs(x, record_line(y, line)),
{
    if line.len() > 0 && line[0] == '+' {
        assert(x.added + y.added.push(line.drop_first()) =~= (x.added + y.added).push(line.drop_first()));
    } else if line.len() > 0 && line[0] == '-' {
        assert(x.removed + y.removed.push(line.drop_first()) =~= (x.removed + y.removed).push(
            line.drop_first(),
        ));
    }
}

/// After a header, the state no longer depends on where it started, except
/// that the files collected before are kept and extended.
proof fn lemma_fresh_start(st: ParseState, lines: Seq<Seq<char>>)
    requires
        lines.len() > 0,
        header_path(lines[0]) is Some,
    ensures
        parse_lines_from(st, lines).current == parse_lines_from(initial_state(), lines).current,
        parse_lines_from(st, lines).files == merge_files(
            st.files,
            parse_lines_from(initial_state(), lines).files,
        ),
    decreases lines.len(),
{
    let a = parse_lines_from(st, lines);
    let b = parse_lines_from(initial_state(), lines);
    if lines.len() == 1 {
        assert(lines.drop_last() =~= Seq::<Seq<char>>::empty());
        assert(lines.last() == lines[0]);
        assert forall|k: Seq<char>| st.files.contains_key(k) implies join_logs(
            log_or_empty(st.files, k),
            log_or_empty(Map::<Seq<char>, ChangeLog>::empty(), k),
        ) == st.files[k] by {
            let x = st.files[k];
            assert(x.added + Seq::<Seq<char>>::empty() =~= x.added);
            assert(x.removed + Seq::<Seq<char>>::empty() =~= x.removed);
        }
        assert(a.files =~= merge_files(st.files, b.files));
    } else {
        let prev = lines.drop_last();
        assert(prev[0] == lines[0]);
        lemma_fresh_start(st, prev);
        let a0 = parse_lines_from(st, prev);
        let b0 = parse_lines_from(initial_state(), prev);
        let line = lines.last();
        let f = st.files;
        match header_path(line) {
            Some(_) => {},
            None => {
                if is_meta_line(line) || a0.current is None {
                } else {
                    let p = a0.current->0;
                    let bl = log_or_empty(b0.files, p);
                    assert(log_or_empty(a0.files, p) == join_logs(log_or_empty(f, p), bl));
                    lemma_record_join(log_or_empty(f, p), bl, line);
                    assert(a.files =~= merge_files(f, b.files));
                }
            },
        }
    }
}

proof fn lemma_open_line_empty(s: Seq<char>)
    ensures
        (open_line(s).len() == 0) <==> (s.len() == 0 || s.last() == '\n'),
{
    if s.len() > 0 && s.last() != '\n' {
        assert(open_line(s).len() == open_line(s.drop_last()).len() + 1);
    }
}

proof fn lemma_text_concat(a: Seq<char>, b: Seq<char>)
    requires
        a.len() == 0 || a.last() == '\n',
    ensures
        finished_lines(a + b) == finished_lines(a) + finished_lines(b),
        open_line(a + b) == open_line(b),
    decreases b.len(),
{
    if b.len() == 0 {
        assert(a + b =~= a);
        assert(finished_lines(a) + finished_lines(b) =~= finished_lines(a));
    } else {
        assert((a + b).drop_last() =~= a + b.drop_last());
        assert((a + b).last() == b.last());
        lemma_text_concat(a, b.drop_last());
        if b.last() == '\n' {
            assert(finished_lines(a) + finished_lines(b.drop_last()).push(
                strip_cr(open_line(b.drop_last())),
            ) =~= (finished_lines(a) + finished_lines(b.drop_last())).push(
                strip_cr(open_line(b.drop_last())),
            ));
        }
    }
}

proof fn lemma_no_newline(s: Seq<char>)
    requires
        forall|i: int| 0 <= i < s.len() ==> s[i] != '\n',
    ensures
        finished_lines(s).len() == 0,
        open_line(s) == s,
    decreases s.len(),
{
    if s.len() > 0 {
        assert(s[s.len() - 1] == s.last());
        assert forall|i: int| 0 <= i < s.drop_last().len() implies s.drop_last()[i] != '\n' by {
            assert(s.drop_last()[i] == s[i]);
        }
        lemma_no_newline(s.drop_last());
        assert(s.drop_last().push(s.last()) =~= s);
    }
}

proof fn lemma_first_line_header(s: Seq<char>)
    requires
        seq_starts_with(s, "diff --git a/"@),
    ensures
        text_lines(s).len() > 0,
        seq_starts_with(text_lines(s)[0], "diff --git a/"@),
    decreases s.len(),
{
    reveal_strlit("diff --git a/");
    let h = "diff --git a/"@;
    assert(h.len() == 13);
    if s.len() == 13 {
        assert(s =~= h);
        lemma_no_newline(s);
        assert(text_lines(s) =~= seq![s]);
    } else {
        let d = s.drop_last();
        assert(d.take(13) =~= s.take(13));
        lemma_first_line_header(d);
        lemma_open_line_empty(d);
        let c = s.last();
        let td = text_lines(d);
        if open_line(d).len() > 0 {
            if c == '\n' {
                if finished_lines(d).len() > 0 {
                    assert(text_lines(s)[0] == td[0]);
                } else {
                    let o = open_line(d);
                    assert(td[0] == o);
                    assert(text_lines(s)[0] == strip_cr(o));
                    if o.len() > 13 {
                        assert(strip_cr(o).take(13) =~= o.take(13));
                    } else {
                        assert(o.last() == o[12]);
                        assert(o[12] == h[12]);
                        assert(strip_cr(o) == o);
                    }
                }
            } else {
                if finished_lines(d).len() > 0 {
                    assert(text_lines(s)[0] == td[0]);
                } else {
                    assert(text_lines(s)[0] == open_line(d).push(c));
                    assert(open_line(d).push(c).take(13) =~= open_line(d).take(13));
                }
            }
        } else {
            assert(text_lines(s)[0] == td[0]);
        }
    }
}

/// Parsing distributes over joining two diffs: parsing `a` and then `b`
/// (with `a` empty or ending in a newline, and `b` opening with a header)
/// gives every file of either, with `a`'s lines before `b`'s.
pub proof fn law_parse_concatenation(a: Seq<char>, b: Seq<char>)
    requires
        a.len() == 0 || a.last() == '\n',
        seq_starts_with(b, "diff --git a/"@),
    ensures
        parse_text(a + b).files == merge_files(parse_text(a).files, parse_text(b).files),
{
    lemma_text_concat(a, b);
    lemma_open_line_empty(a);
    assert(text_lines(a) == finished_lines(a));
    let lb = text_lines(b);
    if open_line(b).len() > 0 {
        assert(text_lines(a + b) =~= text_lines(a) + lb);
    } else {
        assert(text_lines(a + b) =~= text_lines(a) + lb);
    }
    lemma_first_line_header(b);
    reveal_strlit("diff --git a/");
    assert(header_path(lb[0]) is Some);
    lemma_parse_lines_from_initial(text_lines(a + b));
    lemma_parse_lines_from_initial(text_lines(a));
    lemma_parse_lines_from_initial(lb);
    lemma_parse_lines_from_concat(initial_state(), text_lines(a), lb);
    lemma_fresh_start(parse_lines(text_lines(a)), lb);
}

proof fn lemma_prefix_conflict(l: Seq<char>, p: Seq<char>, q: Seq<char>, k: int)
    requires
        seq_starts_with(l, p),
        0 <= k < p.len(),
        k < q.len(),
        p[k] != q[k],
    ensures
        !seq_starts_with(l, q),
{
    assert(l.take(p.len() as int)[k] == l[k]);
    if seq_starts_with(l, q) {
        assert(l.take(q.len() as int)[k] == l[k]);
    }
}

/// The extended-header lines (`index `, `--- `, `+++ `, `new file mode`,
/// `deleted file mode`, `similarity index`, `rename from`, `rename to`) and
/// hunk headers (`@@`) leave the parser exactly where it was: they neither
/// switch files nor give a file an entry or a line.
pub proof fn law_meta_lines_change_nothing(st: ParseState, l: Seq<char>)
    requires
        seq_starts_with(l, "index "@) || seq_starts_with(l, "--- "@) || seq_starts_with(l, "+++ "@)
            || seq_starts_with(l, "@@"@) || seq_starts_with(l, "new file mode"@)
            || seq_starts_with(l, "deleted file mode"@) || seq_starts_with(l, "similarity index"@)
            || seq_starts_with(l, "rename from"@) || seq_starts_with(l, "rename to"@),
    ensures
        parse_step(st, l) == st,
{
    reveal_strlit("diff --git a/");
    reveal_strlit("index ");
    reveal_strlit("--- ");
    reveal_strlit("+++ ");
    reveal_strlit("@@");
    reveal_strlit("new file mode");
    reveal_strlit("deleted file mode");
    reveal_strlit("similarity index");
    reveal_strlit("rename from");
    reveal_strlit("rename to");
    let h = "diff --git a/"@;
    if seq_starts_with(l, "index "@) {
        lemma_prefix_conflict(l, "index "@, h, 0);
    } else if seq_starts_with(l, "--- "@) {
        lemma_prefix_conflict(l, "--- "@, h, 0);
    } else if seq_starts_with(l, "+++ "@) {
        lemma_prefix_conflict(l, "+++ "@, h, 0);
    } else if seq_starts_with(l, "@@"@) {
        lemma_prefix_conflict(l, "@@"@, h, 0);
    } else if seq_starts_with(l, "new file mode"@) {
        lemma_prefix_conflict(l, "new file mode"@, h, 0);
    } else if seq_starts_with(l, "deleted file mode"@) {
        lemma_prefix_conflict(l, "deleted file mode"@, h, 1);
    } else if seq_starts_with(l, "similarity index"@) {
        lemma_prefix_conflict(l, "similarity index"@, h, 0);
    } else if seq_starts_with(l, "rename from"@) {
        lemma_prefix_conflict(l, "rename from"@, h, 0);
    } else {
        lemma_prefix_conflict(l, "rename to"@, h, 0);
    }
}

/// Hunk headers carry nothing the parser keeps: lines that begin with `@@`
/// may be replaced by any other such lines without changing the result.
pub proof fn law_hunk_headers_ignored(s: Seq<char>, t: Seq<char>)
    requires
        text_lines(s).len() == text_lines(t).len(),
        forall|i: int|
            0 <= i < text_lines(s).len() ==> #[trigger] text_lines(s)[i] == text_lines(t)[i] || (
            seq_starts_with(text_lines(s)[i], "@@"@) && seq_starts_with(text_lines(t)[i], "@@"@)),
    ensures
        parse_text(s) == parse_text(t),
{
    lemma_hunk_lines(text_lines(s), text_lines(t));
}

proof fn lemma_hunk_lines(x: Seq<Seq<char>>, y: Seq<Seq<char>>)
    requires
        x.len() == y.len(),
        forall|i: int|
            0 <= i < x.len() ==> #[trigger] x[i] == y[i] || (seq_starts_with(x[i], "@@"@)
                && seq_starts_with(y[i], "@@"@)),
    ensures
        parse_lines(x) == parse_lines(y),
    decreases x.len(),
{
    if x.len() > 0 {
        let n = x.len() - 1;
        assert forall|i: int| 0 <= i < x.drop_last().len() implies #[trigger] x.drop_last()[i]
            == y.drop_last()[i] || (seq_starts_with(x.drop_last()[i], "@@"@) && seq_starts_with(
            y.drop_last()[i],
            "@@"@,
        )) by {
            assert(x.drop_last()[i] == x[i] && y.drop_last()[i] == y[i]);
        }
        lemma_hunk_lines(x.drop_last(), y.drop_last());
        assert(x[n] == x.last() && y[n] == y.last());
        if x.last() != y.last() {
            reveal_strlit("@@");
            reveal_strlit("diff --git a/");
            assert(x.last().take(2)[0] == x.last()[0]);
            assert(y.last().take(2)[0] == y.last()[0]);
            assert("@@"@[0] == '@');
            assert(x.last()[0] == '@' && y.last()[0] == '@');
            assert(!seq_starts_with(x.last(), "diff --git a/"@)) by {
                if seq_starts_with(x.last(), "diff --git a/"@) {
                    assert(x.last().take(13)[0] == x.last()[0]);
                }
            }
            assert(!seq_starts_with(y.last(), "diff --git a/"@)) by {
                if seq_starts_with(y.last(), "diff --git a/"@) {
                    assert(y.last().take(13)[0] == y.last()[0]);
                }
            }
        }
    }
}

} // verus!
