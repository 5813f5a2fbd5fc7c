//! The content hash of a file's changes: a SHA-256 digest over the removed
//! and added lines, written as lower-case hex.

use vstd::prelude::*;
use vstd::utf8::encode_utf8;
use crate::diff::{ChangeLog, FileChanges, strings_view};
use crate::text::push_char;

verus! {

/// The SHA-256 digest of a byte sequence, as the `sha2` crate computes it.
pub uninterp spec fn sha256(data: Seq<u8>) -> Seq<u8>;

/// SHA-256 of `data` (`sha2::Sha256::digest`): the result is the digest that
/// `sha256` names, and is 32 bytes long, the output size of SHA-256.
#[verifier::external_body]
fn sha256_digest(data: &[u8]) -> (d: Vec<u8>)
    ensures
        d@ == sha256(data@),
        d@.len() == 32,
{
    <sha2::Sha256 as sha2::Digest>::digest(data).to_vec()
}

/// Each line as `mark`, its UTF-8 bytes and a newline, one after another.
pub open spec fn framed(mark: u8, lines: Seq<Seq<char>>) -> Seq<u8>
    decreases lines.len(),
{
    if lines.len() == 0 {
        Seq::empty()
    } else {
        framed(mark, lines.drop_last()) + seq![mark] + encode_utf8(lines.last()) + seq![10u8]
    }
}

/// The bytes that are hashed for a file: its removed lines, each marked
/// `-`, then its added lines, each marked `+`.
pub open spec fn changes_message(log: ChangeLog) -> Seq<u8> {
    framed(45u8, log.removed) + framed(43u8, log.added)
}

/// A hexadecimal digit in lower case.
pub open spec fn hex_digit(n: int) -> char {
    if n < 10 {
        (48 + n) as char
    } else {
        (87 + n) as char
    }
}

/// Bytes as lower-case hexadecimal, two digits per byte.
pub open spec fn hex_lower(bytes: Seq<u8>) -> Seq<char>
    decreases bytes.len(),
{
    if bytes.len() == 0 {
        Seq::empty()
    } else {
        hex_lower(bytes.drop_last()) + seq![
            hex_digit(bytes.last() as int / 16),
            hex_digit(bytes.last() as int % 16),
        ]
    }
}

/// The content hash of a file's changes.
pub open spec fn changes_hash(log: ChangeLog) -> Seq<char> {
    hex_lower(sha256(changes_message(log)))
}

fn hex_char(n: u8) -> (c: char)
    requires
        n < 16,
    ensures
        c == hex_digit(n as int),
{
    if n < 10 {
        (48u8 + n) as char
    } else {
        (87u8 + n) as char
    }
}

fn append_framed(msg: &mut Vec<u8>, mark: u8, lines: &Vec<String>)
    ensures
        final(msg)@ == old(msg)@ + framed(mark, strings_view(lines@)),
{
    let ghost start = msg@;
    let mut i: usize = 0;
    assert(strings_view(lines@).take(0) =~= Seq::<Seq<char>>::empty());
    assert(start + framed(mark, Seq::empty()) =~= start);
    while i < lines.len()
        invariant
            i <= lines@.len(),
            msg@ == start + framed(mark, strings_view(lines@).take(i as int)),
        decreases lines@.len() - i,
    {
        let ghost prev = msg@;
        msg.push(mark);
        let bytes = lines[i].as_str().as_bytes();
        let mut k: usize = 0;
        while k < bytes.len()
            invariant
                k <= bytes@.len(),
                msg@ == prev.push(mark) + bytes@.take(k as int),
            decreases bytes@.len() - k,
        {
            msg.push(bytes[k]);
            assert(bytes@.take(k + 1) =~= bytes@.take(k as int).push(bytes@[k as int]));
            k = k + 1;
        }
        msg.push(10u8);
        proof {
            let ls = strings_view(lines@);
            assert(ls.take(i + 1).drop_last() =~= ls.take(i as int));
            assert(ls.take(i + 1).last() == lines@[i as int]@);
            assert(bytes@.take(k as int) =~= bytes@);
            assert(msg@ =~= start + framed(mark, ls.take(i + 1)));
        }
        i = i + 1;
    }
    assert(strings_view(lines@).take(lines@.len() as int) =~= strings_view(lines@));
}

/// Bytes as lower-case hexadecimal.
pub fn to_hex_lower(bytes: &Vec<u8>) -> (s: String)
    ensures
        s@ == hex_lower(bytes@),
{
    let mut s = String::new();
    let mut i: usize = 0;
    assert(bytes@.take(0) =~= Seq::<u8>::empty());
    while i < bytes.len()
        invariant
            i <= bytes@.len(),
            s@ == hex_lower(bytes@.take(i as int)),
        decreases bytes@.len() - i,
    {
        let b = bytes[i];
        push_char(&mut s, hex_char(b / 16));
        push_char(&mut s, hex_char(b % 16));
        assert(bytes@.take(i + 1).drop_last() =~= bytes@.take(i as int));
        assert(s@ =~= hex_lower(bytes@.take(i + 1)));
        i = i + 1;
    }
    assert(bytes@.take(bytes@.len() as int) =~= bytes@);
    s
}

/// The content hash of a file's changes: SHA-256 over its removed lines,
/// each as `-`, the line and a newline, then its added lines, each as `+`,
/// the line and a newline; in lower-case hex.
pub fn hash_changes(c: &FileChanges) -> (h: String)
    ensures
        h@ == changes_hash(c@),
        h@.len() == 64,
        forall|i: int| 0 <= i < 64 ==> is_hex_lower(#[trigger] h@[i]),
{
    let mut msg: Vec<u8> = Vec::new();
    append_framed(&mut msg, 45u8, &c.removed);
    append_framed(&mut msg, 43u8, &c.added);
    assert(msg@ =~= changes_message(c@));
    let d = sha256_digest(msg.as_slice());
    proof {
        lemma_hex_shape(d@);
    }
    to_hex_lower(&d)
}

/// Every line is framed in full: adding a line appends its mark, all of
/// its UTF-8 bytes and a newline to what the earlier lines give.
pub proof fn law_framed_push(mark: u8, lines: Seq<Seq<char>>, line: Seq<char>)
    ensures
        framed(mark, lines.push(line)) == framed(mark, lines) + seq![mark] + encode_utf8(line)
            + seq![10u8],
{
    assert(lines.push(line).drop_last() =~= lines);
}

/// Framing two runs of lines gives the two framings one after the other.
pub proof fn law_framed_concat(mark: u8, a: Seq<Seq<char>>, b: Seq<Seq<char>>)
    ensures
        framed(mark, a + b) == framed(mark, a) + framed(mark, b),
    decreases b.len(),
{
    if b.len() == 0 {
        assert(a + b =~= a);
        assert(framed(mark, a) + framed(mark, b) =~= framed(mark, a));
    } else {
        assert((a + b).drop_last() =~= a + b.drop_last());
        law_framed_concat(mark, a, b.drop_last());
        assert(framed(mark, a + b) =~= framed(mark, a) + framed(mark, b));
    }
}

/// The hashed message of a file's changes is each removed line as `-`, the
/// line and a newline, in order, then each added line as `+`, the line and
/// a newline: its length is the lines' UTF-8 lengths plus two per line, and
/// a one-line change is exactly that line framed.
pub proof fn law_changes_message(log: ChangeLog, line: Seq<char>)
    ensures
        changes_message(log) == framed(45u8, log.removed) + framed(43u8, log.added),
        changes_message(ChangeLog { added: log.added, removed: log.removed.push(line) })
            == framed(45u8, log.removed) + seq![45u8] + encode_utf8(line) + seq![10u8] + framed(
            43u8,
            log.added,
        ),
        changes_message(ChangeLog { added: seq![line], removed: Seq::empty() }) == seq![43u8]
            + encode_utf8(line) + seq![10u8],
        changes_message(ChangeLog { added: Seq::empty(), removed: seq![line] }) == seq![45u8]
            + encode_utf8(line) + seq![10u8],
{
    law_framed_push(45u8, log.removed, line);
    law_framed_push(43u8, Seq::empty(), line);
    law_framed_push(45u8, Seq::empty(), line);
    assert(Seq::<Seq<char>>::empty().push(line) =~= seq![line]);
    assert(framed(43u8, Seq::<Seq<char>>::empty()) + seq![43u8] + encode_utf8(line) + seq![10u8]
        =~= seq![43u8] + encode_utf8(line) + seq![10u8]);
    assert(framed(45u8, Seq::<Seq<char>>::empty()) + seq![45u8] + encode_utf8(line) + seq![10u8]
        =~= seq![45u8] + encode_utf8(line) + seq![10u8]);
    assert(framed(45u8, seq![line]) + framed(43u8, Seq::<Seq<char>>::empty()) =~= framed(45u8, seq![line]));
    assert(framed(45u8, Seq::<Seq<char>>::empty()) + framed(43u8, seq![line]) =~= framed(43u8, seq![line]));
}

/// Hexadecimal text has two digits per byte, each `0`-`9` or `a`-`f`.
pub proof fn lemma_hex_shape(bytes: Seq<u8>)
    ensures
        hex_lower(bytes).len() == 2 * bytes.len(),
        forall|i: int|
            0 <= i < hex_lower(bytes).len() ==> is_hex_lower(#[trigger] hex_lower(bytes)[i]),
    decreases bytes.len(),
{
    if bytes.len() > 0 {
        lemma_hex_shape(bytes.drop_last());
        let h = hex_lower(bytes);
        let p = hex_lower(bytes.drop_last());
        assert forall|i: int| 0 <= i < h.len() implies is_hex_lower(#[trigger] h[i]) by {
            if i < p.len() {
                assert(h[i] == p[i]);
            }
        }
    }
}

/// A lower-case hexadecimal digit.
pub open spec fn is_hex_lower(c: char) -> bool {
    ('0' <= c && c <= '9') || ('a' <= c && c <= 'f')
}

} // verus!
