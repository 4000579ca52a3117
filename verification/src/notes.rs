//! Plain-text note lines.
//!
//! Notes are kept in a text file, one line per note: a bracketed timestamp
//! padded to a fixed width, a bracketed category padded likewise, then the
//! note's text. This module holds the line formatter, the reader's line
//! splitting (newest first), the deletion decision, and the viewer's lexical
//! filter: a note matches a term when its category or its text contains the
//! lowercased term. Reading the file and writing it back stay with the host.

use vstd::prelude::*;
use crate::codec::chars_to_string;
use crate::codec::str_to_chars;

verus! {

/// Width the bracketed timestamp is padded to.
pub const TIMESTAMP_WIDTH: usize = 14;

/// Width the bracketed category is padded to.
pub const CATEGORY_WIDTH: usize = 10;

/// `n` spaces.
pub open spec fn spaces(n: int) -> Seq<char>
    decreases n,
{
    if n <= 0 {
        Seq::empty()
    } else {
        spaces(n - 1).push(' ')
    }
}

/// `s` padded with trailing spaces to width `w`; a longer `s` stays as is.
pub open spec fn pad_spec(s: Seq<char>, w: int) -> Seq<char> {
    s + spaces(w - s.len())
}

/// One formatted note line: the bracketed timestamp padded, a space, the
/// bracketed category padded, a space, the note text.
pub open spec fn note_line_spec(ts: Seq<char>, cat: Seq<char>, text: Seq<char>) -> Seq<char> {
    pad_spec(seq!['['] + ts + seq![']'], TIMESTAMP_WIDTH as int) + seq![' '] + pad_spec(
        seq!['['] + cat + seq![']'],
        CATEGORY_WIDTH as int,
    ) + seq![' '] + text
}

/// Length of the longest prefix of `s` whose characters satisfy `pred`.
pub open spec fn prefix_len(s: Seq<char>, pred: spec_fn(char) -> bool) -> int
    decreases s.len(),
{
    if s.len() == 0 || !pred(s[0]) {
        0
    } else {
        1 + prefix_len(s.skip(1), pred)
    }
}

/// Length of the longest suffix of `s` whose characters satisfy `pred`.
pub open spec fn suffix_len(s: Seq<char>, pred: spec_fn(char) -> bool) -> int
    decreases s.len(),
{
    if s.len() == 0 || !pred(s.last()) {
        0
    } else {
        1 + suffix_len(s.drop_last(), pred)
    }
}

pub proof fn lemma_prefix_len_exact(s: Seq<char>, pred: spec_fn(char) -> bool, k: int)
    requires
        0 <= k <= s.len(),
        forall|i: int| 0 <= i < k ==> pred(#[trigger] s[i]),
        k == s.len() || !pred(s[k]),
    ensures
        prefix_len(s, pred) == k,
    decreases k,
{
    if k > 0 {
        let s1 = s.skip(1);
        assert(forall|i: int| 0 <= i < k - 1 ==> #[trigger] s1[i] == s[i + 1]);
        lemma_prefix_len_exact(s1, pred, k - 1);
    }
}

pub proof fn lemma_suffix_len_exact(s: Seq<char>, pred: spec_fn(char) -> bool, k: int)
    requires
        0 <= k <= s.len(),
        forall|i: int| s.len() - k <= i < s.len() ==> pred(#[trigger] s[i]),
        k == s.len() || !pred(s[s.len() - k - 1]),
    ensures
        suffix_len(s, pred) == k,
    decreases k,
{
    if k > 0 {
        let s1 = s.drop_last();
        assert(forall|i: int| 0 <= i < s1.len() ==> #[trigger] s1[i] == s[i]);
        lemma_suffix_len_exact(s1, pred, k - 1);
    }
}

/// The characters that are not `c`: `prefix_len` of this is the position of
/// the first `c`, or the length when there is none.
pub open spec fn not_char(c: char) -> spec_fn(char) -> bool {
    |x: char| x != c
}

/// Index of the first `c` in `s`, or `s.len()` when there is none.
pub open spec fn find_ch(s: Seq<char>, c: char) -> int {
    prefix_len(s, not_char(c))
}

/// A line with a final carriage return has it stripped, as the standard
/// line iterator does.
pub open spec fn strip_cr(l: Seq<char>) -> Seq<char> {
    if l.len() > 0 && l.last() == '\r' {
        l.drop_last()
    } else {
        l
    }
}

pub proof fn lemma_prefix_len_bound(s: Seq<char>, pred: spec_fn(char) -> bool)
    ensures
        0 <= prefix_len(s, pred) <= s.len(),
    decreases s.len(),
{
    if s.len() > 0 && pred(s[0]) {
        lemma_prefix_len_bound(s.skip(1), pred);
    }
}

/// The file's lines in file order: split at newlines, a trailing newline
/// ends the last line rather than opening an empty one, and a final
/// carriage return is stripped from each line.
pub open spec fn lines_spec(s: Seq<char>) -> Seq<Seq<char>>
    decreases s.len(),
    via lines_spec_dec
{
    if s.len() == 0 {
        Seq::empty()
    } else {
        let i = find_ch(s, '\n');
        if i >= s.len() {
            seq![strip_cr(s)]
        } else {
            seq![strip_cr(s.take(i))] + lines_spec(s.skip(i + 1))
        }
    }
}

#[via_fn]
proof fn lines_spec_dec(s: Seq<char>) {
    lemma_prefix_len_bound(s, not_char('\n'));
}


/// Whether a character is white space, by the standard library's Unicode
/// notion of it.
pub uninterp spec fn white_of(c: char) -> bool;

/// Relies on `char::is_whitespace`: the Unicode white-space property of the
/// character.
#[verifier::external_body]
fn is_white(c: char) -> (b: bool)
    ensures
        b == white_of(c),
{
    c.is_whitespace()
}

/// The lowercased form of a string, as the standard library computes it.
pub uninterp spec fn lower_of(s: Seq<char>) -> Seq<char>;

/// Relies on `str::to_lowercase`: the result depends on the characters
/// alone, and an empty string stays empty.
#[verifier::external_body]
fn lowercase(s: &str) -> (r: String)
    ensures
        r@ == lower_of(s@),
        s@.len() == 0 ==> r@.len() == 0,
{
    s.to_lowercase()
}

/// White-space characters, as a predicate for prefix and suffix runs.
pub open spec fn white_pred() -> spec_fn(char) -> bool {
    |c: char| white_of(c)
}

/// Opening brackets, as a predicate for prefix runs.
pub open spec fn bracket_pred() -> spec_fn(char) -> bool {
    |c: char| c == '['
}

/// `s` with leading and trailing white space removed.
pub open spec fn trim_spec(s: Seq<char>) -> Seq<char> {
    let a = prefix_len(s, white_pred());
    if a >= s.len() {
        Seq::empty()
    } else {
        s.subrange(a, s.len() - suffix_len(s, white_pred()))
    }
}

/// `s` with every leading opening bracket removed.
pub open spec fn strip_brackets_spec(s: Seq<char>) -> Seq<char> {
    s.skip(prefix_len(s, bracket_pred()))
}

/// The second bracket-delimited part of a line (between the first and the
/// second closing bracket), or nothing when the line has no closing
/// bracket.
pub open spec fn part1_spec(s: Seq<char>) -> Seq<char> {
    let i1 = find_ch(s, ']');
    if i1 >= s.len() {
        Seq::empty()
    } else {
        let r = s.skip(i1 + 1);
        r.take(find_ch(r, ']'))
    }
}

/// The third bracket-delimited part of a line, or nothing when the line
/// has fewer than two closing brackets.
pub open spec fn part2_spec(s: Seq<char>) -> Seq<char> {
    let i1 = find_ch(s, ']');
    if i1 >= s.len() {
        Seq::empty()
    } else {
        let r = s.skip(i1 + 1);
        let i2 = find_ch(r, ']');
        if i2 >= r.len() {
            Seq::empty()
        } else {
            let r2 = r.skip(i2 + 1);
            r2.take(find_ch(r2, ']'))
        }
    }
}

/// A line's category, as the viewer reads it: the second part, brackets
/// stripped, trimmed.
pub open spec fn cat_spec(s: Seq<char>) -> Seq<char> {
    trim_spec(strip_brackets_spec(part1_spec(s)))
}

/// A line's text, as the viewer reads it: the third part, trimmed.
pub open spec fn content_spec(s: Seq<char>) -> Seq<char> {
    trim_spec(part2_spec(s))
}

/// `nee` occurs contiguously inside `hay`.
pub open spec fn contains_spec(hay: Seq<char>, nee: Seq<char>) -> bool {
    exists|i: int|
        0 <= i && i + nee.len() <= hay.len() && #[trigger] hay.subrange(i, i + nee.len()) == nee
}

/// The viewer's lexical match: the lowercased term occurs in the line's
/// lowercased category or in its lowercased text.
pub open spec fn line_matches_spec(line: Seq<char>, term: Seq<char>) -> bool {
    ||| contains_spec(lower_of(cat_spec(line)), lower_of(term))
    ||| contains_spec(lower_of(content_spec(line)), lower_of(term))
}

/// The lines that match a term.
pub open spec fn lex_pred(term: Seq<char>) -> spec_fn(String) -> bool {
    |n: String| line_matches_spec(n@, term)
}

/// Appends the characters of `s`.
#[verifier::loop_isolation(false)]
fn push_str_chars(out: &mut Vec<char>, s: &str)
    ensures
        final(out)@ == old(out)@ + s@,
{
    let n = s.unicode_len();
    let mut i: usize = 0;
    while i < n
        invariant
            0 <= i <= n,
            n as int == s@.len(),
            out@ == old(out)@ + s@.take(i as int),
        decreases n - i,
    {
        out.push(s.get_char(i));
        proof {
            assert(out@ =~= old(out)@ + s@.take(i as int + 1));
        }
        i = i + 1;
    }
    proof {
        assert(s@.take(n as int) =~= s@);
    }
}

/// Appends trailing spaces until the segment reaches width `w`.
#[verifier::loop_isolation(false)]
fn pad_to(seg: &mut Vec<char>, w: usize)
    ensures
        final(seg)@ == pad_spec(old(seg)@, w as int),
{
    let mut cnt: usize = 0;
    proof {
        assert(seg@ =~= old(seg)@ + spaces(0));
    }
    while seg.len() < w
        invariant
            seg@ == old(seg)@ + spaces(cnt as int),
            cnt as int == seg@.len() - old(seg)@.len(),
            old(seg)@.len() >= w as int ==> cnt == 0,
            old(seg)@.len() < w as int ==> seg@.len() <= w as int,
        decreases w - seg@.len(),
    {
        seg.push(' ');
        proof {
            assert(seg@ =~= old(seg)@ + spaces(cnt as int + 1));
        }
        cnt = cnt + 1;
    }
    proof {
        if old(seg)@.len() >= w as int {
            assert(spaces(w - old(seg)@.len()) =~= Seq::<char>::empty());
            assert(seg@ =~= pad_spec(old(seg)@, w as int));
        } else {
            assert(cnt as int == w - old(seg)@.len());
            assert(seg@ =~= pad_spec(old(seg)@, w as int));
        }
    }
}

/// One formatted note line, exactly as it is appended to the notes file
/// (without the final newline): the bracketed timestamp padded, the
/// bracketed category padded, then the text.
#[verifier::loop_isolation(false)]
pub fn format_note_line(timestamp: &str, category: &str, text: &str) -> (r: String)
    ensures
        r@ == note_line_spec(timestamp@, category@, text@),
{
    let mut seg1: Vec<char> = Vec::new();
    seg1.push('[');
    push_str_chars(&mut seg1, timestamp);
    seg1.push(']');
    proof {
        assert(seg1@ =~= seq!['['] + timestamp@ + seq![']']);
    }
    pad_to(&mut seg1, TIMESTAMP_WIDTH);
    let mut seg2: Vec<char> = Vec::new();
    seg2.push('[');
    push_str_chars(&mut seg2, category);
    seg2.push(']');
    proof {
        assert(seg2@ =~= seq!['['] + category@ + seq![']']);
    }
    pad_to(&mut seg2, CATEGORY_WIDTH);
    let mut out: Vec<char> = seg1;
    out.push(' ');
    let mut i: usize = 0;
    while i < seg2.len()
        invariant
            0 <= i <= seg2@.len(),
            out@ == pad_spec(seq!['['] + timestamp@ + seq![']'], TIMESTAMP_WIDTH as int)
                + seq![' '] + seg2@.take(i as int),
            seg2@ == pad_spec(seq!['['] + category@ + seq![']'], CATEGORY_WIDTH as int),
        decreases seg2@.len() - i,
    {
        out.push(seg2[i]);
        proof {
            assert(out@ =~= pad_spec(seq!['['] + timestamp@ + seq![']'], TIMESTAMP_WIDTH as int)
                + seq![' '] + seg2@.take(i as int + 1));
        }
        i = i + 1;
    }
    proof {
        assert(seg2@.take(seg2@.len() as int) =~= seg2@);
    }
    out.push(' ');
    push_str_chars(&mut out, text);
    proof {
        assert(out@ =~= note_line_spec(timestamp@, category@, text@));
    }
    chars_to_string(out)
}

/// First position of `c` at or after `from`, or the length when `c` does
/// not occur there.
#[verifier::loop_isolation(false)]
fn find_from(v: &Vec<char>, from: usize, c: char) -> (r: usize)
    requires
        from <= v@.len(),
    ensures
        from <= r <= v@.len(),
        r as int - from as int == find_ch(v@.skip(from as int), c),
        forall|j: int| from as int <= j < r as int ==> #[trigger] v@[j] != c,
        r < v@.len() ==> v@[r as int] == c,
{
    let ghost s = v@.skip(from as int);
    proof {
        assert(v.len() == v@.len());
        assert(forall|j: int| 0 <= j < s.len() ==> #[trigger] s[j] == v@[from + j]);
    }
    let mut r: usize = from;
    while r < v.len()
        invariant
            from <= r <= v@.len() <= usize::MAX as int,
            forall|j: int| from as int <= j < r as int ==> #[trigger] v@[j] != c,
        decreases v@.len() - r,
    {
        if v[r] == c {
            proof {
                lemma_prefix_len_exact(s, not_char(c), r as int - from as int);
            }
            return r;
        }
        r = r + 1;
    }
    proof {
        lemma_prefix_len_exact(s, not_char(c), r as int - from as int);
    }
    r
}

/// The notes file's lines, newest first: the file's lines in reverse
/// order.
#[verifier::loop_isolation(false)]
pub fn parse_notes(content: &str) -> (r: Vec<String>)
    ensures
        r@.len() == lines_spec(content@).len(),
        forall|i: int|
            0 <= i < r@.len() ==> (#[trigger] r@[i])@ == lines_spec(content@)[r@.len() - 1 - i],
{
    let v = str_to_chars(content);
    let mut lines: Vec<String> = Vec::new();
    let mut pos: usize = 0;
    proof {
        assert(v.len() == v@.len());
        assert(v@.skip(0) =~= v@);
        assert(lines@.map_values(|l: String| l@) + lines_spec(v@) =~= lines_spec(v@));
    }
    while pos < v.len()
        invariant
            0 <= pos <= v@.len(),
            lines_spec(v@) == lines@.map_values(|l: String| l@) + lines_spec(
                v@.skip(pos as int),
            ),
        decreases v@.len() - pos,
    {
        let ghost cur = v@.skip(pos as int);
        let e = find_from(&v, pos, '\n');
        let end = if e > pos && v[e - 1] == '\r' {
            e - 1
        } else {
            e
        };
        let mut lv: Vec<char> = Vec::new();
        let mut j: usize = pos;
        while j < end
            invariant
                pos <= j <= end,
                lv@ =~= v@.subrange(pos as int, j as int),
            decreases end - j,
        {
            lv.push(v[j]);
            proof {
                assert(lv@ =~= v@.subrange(pos as int, j as int + 1));
            }
            j = j + 1;
        }
        let line = chars_to_string(lv);
        let ghost prev = lines@;
        lines.push(line);
        proof {
            let i = find_ch(cur, '\n');
            assert(i == e as int - pos as int);
            if e == v.len() {
                assert(strip_cr(cur) =~= v@.subrange(pos as int, end as int));
                assert(lines_spec(cur) == seq![strip_cr(cur)]);
            } else {
                assert(cur.take(i) =~= v@.subrange(pos as int, e as int));
                assert(strip_cr(cur.take(i)) =~= v@.subrange(pos as int, end as int));
                assert(cur.skip(i + 1) =~= v@.skip(e as int + 1));
            }
            assert(line@ == v@.subrange(pos as int, end as int));
            assert(lines@.map_values(|l: String| l@) =~= prev.map_values(|l: String| l@).push(
                line@,
            ));
        }
        if e == v.len() {
            pos = e;
            proof {
                assert(v@.skip(pos as int).len() == 0);
                assert(lines@.map_values(|l: String| l@) + lines_spec(v@.skip(pos as int))
                    =~= prev.map_values(|l: String| l@) + lines_spec(cur));
            }
        } else {
            pos = e + 1;
            proof {
                assert(lines@.map_values(|l: String| l@) + lines_spec(v@.skip(pos as int))
                    =~= prev.map_values(|l: String| l@) + lines_spec(cur));
            }
        }
    }
    proof {
        assert(v@.skip(pos as int).len() == 0);
        assert(lines_spec(v@) =~= lines@.map_values(|l: String| l@));
    }
    let n = lines.len();
    let mut rev: Vec<String> = Vec::new();
    let mut i: usize = 0;
    while i < n
        invariant
            0 <= i <= n,
            n as int == lines@.len(),
            rev@.len() == i as int,
            forall|p: int| 0 <= p < i as int ==> (#[trigger] rev@[p])@ == lines@[n - 1 - p]@,
        decreases n - i,
    {
        let line = lines[n - 1 - i].clone();
        rev.push(line);
        i = i + 1;
    }
    proof {
        assert(forall|p: int|
            0 <= p < n as int ==> lines@.map_values(|l: String| l@)[p] == #[trigger] lines@[p]@);
    }
    rev
}

/// Deletes the line at `index` when it exists; the host writes the joined
/// lines back.
pub fn delete_line(notes: &mut Vec<String>, index: usize) -> (removed: bool)
    ensures
        index < old(notes)@.len() ==> final(notes)@ == old(notes)@.remove(index as int)
            && removed,
        index >= old(notes)@.len() ==> final(notes)@ == old(notes)@ && !removed,
{
    if index < notes.len() {
        notes.remove(index);
        true
    } else {
        false
    }
}

/// Whether the characters starting at `at` are exactly `nee`.
#[verifier::loop_isolation(false)]
fn matches_at(hay: &Vec<char>, nee: &Vec<char>, at: usize) -> (b: bool)
    requires
        at + nee@.len() <= hay@.len(),
    ensures
        b == (hay@.subrange(at as int, at as int + nee@.len()) == nee@),
{
    proof {
        assert(hay.len() == hay@.len());
        assert(nee.len() == nee@.len());
    }
    let mut j: usize = 0;
    while j < nee.len()
        invariant
            0 <= j <= nee@.len(),
            at + nee@.len() <= hay@.len(),
            forall|p: int| 0 <= p < j as int ==> #[trigger] hay@[at + p] == nee@[p],
        decreases nee@.len() - j,
    {
        if !(hay[at + j] == nee[j]) {
            proof {
                assert(hay@.subrange(at as int, at as int + nee@.len())[j as int] == hay@[at
                    + j as int]);
            }
            return false;
        }
        j = j + 1;
    }
    proof {
        assert forall|p: int|
            0 <= p < nee@.len() implies hay@.subrange(at as int, at as int + nee@.len())[p]
            == nee@[p] by {
            assert(hay@[at + p] == nee@[p]);
        }
        assert(hay@.subrange(at as int, at as int + nee@.len()) =~= nee@);
    }
    true
}

/// Whether `nee` occurs contiguously inside `hay`.
#[verifier::loop_isolation(false)]
fn contains_sub(hay: &Vec<char>, nee: &Vec<char>) -> (b: bool)
    ensures
        b == contains_spec(hay@, nee@),
{
    proof {
        assert(hay.len() == hay@.len());
        assert(nee.len() == nee@.len());
    }
    if nee.len() == 0 {
        proof {
            assert(hay@.subrange(0, 0 + nee@.len() as int) =~= nee@);
            assert(contains_spec(hay@, nee@));
        }
        return true;
    }
    if nee.len() > hay.len() {
        return false;
    }
    let last = hay.len() - nee.len();
    let mut i: usize = 0;
    while i <= last
        invariant
            0 <= i <= last + 1,
            last as int == hay@.len() - nee@.len(),
            forall|p: int|
                0 <= p < i as int ==> #[trigger] hay@.subrange(p, p + nee@.len()) != nee@,
        decreases last + 1 - i,
    {
        if matches_at(hay, nee, i) {
            return true;
        }
        i = i + 1;
    }
    false
}

/// The length of the white-space run at the front.
#[verifier::loop_isolation(false)]
fn count_white_front(v: &Vec<char>) -> (a: usize)
    ensures
        a as int == prefix_len(v@, white_pred()),
        a <= v@.len(),
        a < v@.len() ==> !white_of(v@[a as int]),
{
    let mut a: usize = 0;
    while a < v.len()
        invariant
            0 <= a <= v@.len(),
            forall|j: int| 0 <= j < a as int ==> white_of(#[trigger] v@[j]),
        decreases v@.len() - a,
    {
        if !is_white(v[a]) {
            proof {
                lemma_prefix_len_exact(v@, white_pred(), a as int);
            }
            return a;
        }
        a = a + 1;
    }
    proof {
        lemma_prefix_len_exact(v@, white_pred(), a as int);
    }
    a
}

/// The length of the opening-bracket run at the front.
#[verifier::loop_isolation(false)]
fn count_brackets_front(v: &Vec<char>) -> (a: usize)
    ensures
        a as int == prefix_len(v@, bracket_pred()),
        a <= v@.len(),
        a < v@.len() ==> v@[a as int] != '[',
{
    let mut a: usize = 0;
    while a < v.len()
        invariant
            0 <= a <= v@.len(),
            forall|j: int| 0 <= j < a as int ==> #[trigger] v@[j] == '[',
        decreases v@.len() - a,
    {
        if !(v[a] == '[') {
            proof {
                lemma_prefix_len_exact(v@, bracket_pred(), a as int);
            }
            return a;
        }
        a = a + 1;
    }
    proof {
        lemma_prefix_len_exact(v@, bracket_pred(), a as int);
    }
    a
}

/// Copies `v[from .. to]`.
#[verifier::loop_isolation(false)]
fn copy_range(v: &Vec<char>, from: usize, to: usize) -> (r: Vec<char>)
    requires
        from <= to <= v@.len(),
    ensures
        r@ == v@.subrange(from as int, to as int),
{
    let mut r: Vec<char> = Vec::new();
    let mut j: usize = from;
    while j < to
        invariant
            from <= j <= to <= v@.len(),
            r@ =~= v@.subrange(from as int, j as int),
        decreases to - j,
    {
        r.push(v[j]);
        proof {
            assert(r@ =~= v@.subrange(from as int, j as int + 1));
        }
        j = j + 1;
    }
    proof {
        assert(r@ =~= v@.subrange(from as int, to as int));
    }
    r
}

/// `v` without leading and trailing white space.
#[verifier::loop_isolation(false)]
fn trim_chars(v: &Vec<char>) -> (r: Vec<char>)
    ensures
        r@ == trim_spec(v@),
{
    let a = count_white_front(v);
    if a == v.len() {
        proof {
            assert(v.len() == v@.len());
        }
        Vec::new()
    } else {
        let mut b: usize = v.len();
        while b > a && is_white(v[b - 1])
            invariant
                a <= b <= v@.len(),
                forall|j: int| b as int <= j < v@.len() ==> white_of(#[trigger] v@[j]),
            decreases b,
        {
            b = b - 1;
        }
        proof {
            assert(a < v@.len());
            assert(!white_of(v@[a as int]));
            if b == a {
                assert(white_of(v@[a as int]));
            }
            assert(b > a);
            assert(!white_of(v@[b as int - 1]));
            lemma_suffix_len_exact(v@, white_pred(), v@.len() - b as int);
        }
        copy_range(v, a, b)
    }
}

/// A line's category, as the viewer reads it for filtering.
fn line_category(line: &Vec<char>) -> (r: Vec<char>)
    ensures
        r@ == cat_spec(line@),
{
    proof {
        assert(line.len() == line@.len());
    }
    let i1 = find_from(line, 0, ']');
    if i1 == line.len() {
        proof {
            assert(line@.skip(0) =~= line@);
            assert(strip_brackets_spec(Seq::<char>::empty()) =~= Seq::<char>::empty());
        }
        Vec::new()
    } else {
        let e2 = find_from(line, i1 + 1, ']');
        let raw = copy_range(line, i1 + 1, e2);
        proof {
            assert(line@.skip(0) =~= line@);
            let rr = line@.skip(i1 as int + 1);
            assert(rr.take(find_ch(rr, ']')) =~= line@.subrange(i1 as int + 1, e2 as int));
        }
        let k = count_brackets_front(&raw);
        let stripped = copy_range(&raw, k, raw.len());
        proof {
            assert(stripped@ =~= raw@.skip(prefix_len(raw@, bracket_pred())));
        }
        trim_chars(&stripped)
    }
}

/// A line's text, as the viewer reads it for filtering.
fn line_content(line: &Vec<char>) -> (r: Vec<char>)
    ensures
        r@ == content_spec(line@),
{
    proof {
        assert(line.len() == line@.len());
        assert(line@.skip(0) =~= line@);
    }
    let i1 = find_from(line, 0, ']');
    if i1 == line.len() {
        Vec::new()
    } else {
        let e2 = find_from(line, i1 + 1, ']');
        proof {
            let rr = line@.skip(i1 as int + 1);
            assert(find_ch(rr, ']') == e2 as int - (i1 as int + 1));
        }
        if e2 == line.len() {
            Vec::new()
        } else {
            let e3 = find_from(line, e2 + 1, ']');
            let raw = copy_range(line, e2 + 1, e3);
            proof {
                let rr = line@.skip(i1 as int + 1);
                let r2 = rr.skip(find_ch(rr, ']') + 1);
                assert(r2 =~= line@.skip(e2 as int + 1));
                assert(r2.take(find_ch(r2, ']')) =~= line@.subrange(e2 as int + 1, e3 as int));
            }
            trim_chars(&raw)
        }
    }
}

/// Whether a note line matches the search term lexically: the lowercased
/// term occurs in the lowercased category or in the lowercased text. An
/// empty term matches every line.
pub fn line_matches(note: &str, term: &str) -> (b: bool)
    ensures
        b == line_matches_spec(note@, term@),
        term@.len() == 0 ==> b,
{
    let lc = str_to_chars(note);
    let cat = line_category(&lc);
    let cont = line_content(&lc);
    let cat_s = chars_to_string(cat);
    let cont_s = chars_to_string(cont);
    let cat_l = lowercase(cat_s.as_str());
    let cont_l = lowercase(cont_s.as_str());
    let term_l = lowercase(term);
    let cat_lc = str_to_chars(cat_l.as_str());
    let cont_lc = str_to_chars(cont_l.as_str());
    let term_lc = str_to_chars(term_l.as_str());
    proof {
        if term@.len() == 0 {
            assert(cat_lc@.subrange(0, 0 + term_lc@.len() as int) =~= term_lc@);
            assert(contains_spec(cat_lc@, term_lc@));
        }
    }
    if contains_sub(&cat_lc, &term_lc) {
        true
    } else {
        contains_sub(&cont_lc, &term_lc)
    }
}

/// The viewer's lexical filter: the notes whose category or text contains
/// the lowercased term, in their original order.
#[verifier::loop_isolation(false)]
pub fn update_filtered(notes: &Vec<String>, term: &str) -> (r: Vec<String>)
    ensures
        r@ == notes@.filter(lex_pred(term@)),
{
    let ghost pred = lex_pred(term@);
    let mut out: Vec<String> = Vec::new();
    let mut i: usize = 0;
    proof {
        reveal(Seq::filter);
        assert(notes@.subrange(0, 0) =~= Seq::<String>::empty());
        assert(out@ =~= notes@.subrange(0, 0).filter(pred));
    }
    while i < notes.len()
        invariant
            0 <= i <= notes@.len(),
            pred == lex_pred(term@),
            out@ == notes@.subrange(0, i as int).filter(pred),
            term@.len() == 0 ==> out@ == notes@.subrange(0, i as int),
        decreases notes@.len() - i,
    {
        proof {
            reveal(Seq::filter);
            let prefix = notes@.subrange(0, i as int + 1);
            assert(prefix.drop_last() =~= notes@.subrange(0, i as int));
            assert(prefix.last() == notes@[i as int]);
        }
        if line_matches(notes[i].as_str(), term) {
            let kept = notes[i].clone();
            out.push(kept);
            proof {
                reveal(Seq::filter);
                assert(out@ =~= notes@.subrange(0, i as int + 1).filter(pred));
                if term@.len() == 0 {
                    assert(out@ =~= notes@.subrange(0, i as int + 1));
                }
            }
        } else {
            proof {
                reveal(Seq::filter);
                assert(out@ =~= notes@.subrange(0, i as int + 1).filter(pred));
            }
        }
        i = i + 1;
    }
    proof {
        assert(notes@.subrange(0, notes@.len() as int) =~= notes@);
    }
    out
}

} // verus!
