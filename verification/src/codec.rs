//! The persisted form of the vector store, and its parser.
//!
//! A store is saved as a sequence of lines, one record each:
//!
//! ```text
//! <text length> <dimension> <text><component>...<newline>
//! ```
//!
//! The two decimal header fields are followed by exactly `text length`
//! characters of note text (so the text needs no escaping), then by
//! `dimension` components, each written as one space and the decimal value of
//! the component shifted up by `SCALE` (so components never need a sign), and
//! a final newline. Every rendered store parses back to exactly itself, so
//! the persisted file is byte-stable from the first save on; a file that
//! parses but was written by another hand (say, with leading zeros in a
//! decimal field) re-renders once to the canonical form and is stable from
//! then on.

use vstd::prelude::*;
use vstd::arithmetic::div_mod::lemma_fundamental_div_mod;
use crate::store::views_wf;
use crate::store::view_wf;
use crate::vecmath::bounded;
use crate::vecmath::SCALE;

verus! {

pub open spec fn is_digit(c: char) -> bool {
    c == '0' || c == '1' || c == '2' || c == '3' || c == '4' || c == '5' || c == '6' || c == '7'
        || c == '8' || c == '9'
}

pub open spec fn digit_char(d: int) -> char {
    if d == 0 {
        '0'
    } else if d == 1 {
        '1'
    } else if d == 2 {
        '2'
    } else if d == 3 {
        '3'
    } else if d == 4 {
        '4'
    } else if d == 5 {
        '5'
    } else if d == 6 {
        '6'
    } else if d == 7 {
        '7'
    } else if d == 8 {
        '8'
    } else {
        '9'
    }
}

pub open spec fn digit_val(c: char) -> int {
    if c == '0' {
        0
    } else if c == '1' {
        1
    } else if c == '2' {
        2
    } else if c == '3' {
        3
    } else if c == '4' {
        4
    } else if c == '5' {
        5
    } else if c == '6' {
        6
    } else if c == '7' {
        7
    } else if c == '8' {
        8
    } else {
        9
    }
}

pub open spec fn pow10(k: nat) -> int
    decreases k,
{
    if k == 0 {
        1
    } else {
        10 * pow10((k - 1) as nat)
    }
}

/// Decimal digits of `n`, most significant first, no leading zeros.
pub open spec fn dec_spec(n: nat) -> Seq<char>
    decreases n,
{
    if n < 10 {
        seq![digit_char(n as int)]
    } else {
        dec_spec(n / 10).push(digit_char((n % 10) as int))
    }
}

/// Value of a digit sequence.
pub open spec fn val_spec(ds: Seq<char>) -> int
    decreases ds.len(),
{
    if ds.len() == 0 {
        0
    } else {
        val_spec(ds.drop_last()) * 10 + digit_val(ds.last())
    }
}

/// Length of the longest digit prefix of `s`.
pub open spec fn digits_prefix_spec(s: Seq<char>) -> int
    decreases s.len(),
{
    if s.len() == 0 || !is_digit(s[0]) {
        0
    } else {
        1 + digits_prefix_spec(s.skip(1))
    }
}

/// Greedy decimal number: at least one and at most nine digits, followed by
/// a non-digit (or the end); yields the value and the rest.
pub open spec fn parse_nat_spec(s: Seq<char>) -> Option<(int, Seq<char>)> {
    let k = digits_prefix_spec(s);
    if 1 <= k <= 9 {
        Some((val_spec(s.take(k)), s.skip(k)))
    } else {
        None
    }
}

/// The biased decimal form of one component.
pub open spec fn comp_chars(x: i32) -> Seq<char> {
    dec_spec(((x as int) + (SCALE as int)) as nat)
}

/// The rendered components of an embedding: a space before each value.
pub open spec fn comps_render(e: Seq<i32>) -> Seq<char>
    decreases e.len(),
{
    if e.len() == 0 {
        Seq::empty()
    } else {
        seq![' '] + comp_chars(e[0]) + comps_render(e.skip(1))
    }
}

/// One rendered record line.
pub open spec fn rec_render(v: (Seq<char>, Seq<i32>)) -> Seq<char> {
    dec_spec(v.0.len()) + seq![' '] + dec_spec(v.1.len()) + seq![' '] + v.0 + comps_render(v.1)
        + seq!['\n']
}

/// The rendered store: its record lines in order.
pub open spec fn render_spec(vs: Seq<(Seq<char>, Seq<i32>)>) -> Seq<char>
    decreases vs.len(),
{
    if vs.len() == 0 {
        Seq::empty()
    } else {
        rec_render(vs[0]) + render_spec(vs.skip(1))
    }
}

/// Parses `k` components, each a space and a biased value of at most
/// `2 * SCALE`.
pub open spec fn parse_comps_spec(s: Seq<char>, k: nat) -> Option<(Seq<i32>, Seq<char>)>
    decreases k,
{
    if k == 0 {
        Some((Seq::empty(), s))
    } else if s.len() == 0 || s[0] != ' ' {
        None
    } else {
        match parse_nat_spec(s.skip(1)) {
            None => None,
            Some((b, s2)) => {
                if b > 2 * (SCALE as int) {
                    None
                } else {
                    match parse_comps_spec(s2, (k - 1) as nat) {
                        None => None,
                        Some((e, s3)) => Some((seq![(b - (SCALE as int)) as i32] + e, s3)),
                    }
                }
            },
        }
    }
}

/// Parses one record line.
pub open spec fn parse_rec_spec(s: Seq<char>) -> Option<(Seq<char>, Seq<i32>, Seq<char>)> {
    match parse_nat_spec(s) {
        None => None,
        Some((tlen, s1)) => {
            if s1.len() == 0 || s1[0] != ' ' {
                None
            } else {
                match parse_nat_spec(s1.skip(1)) {
                    None => None,
                    Some((dim, s3)) => {
                        if s3.len() == 0 || s3[0] != ' ' {
                            None
                        } else {
                            let s4 = s3.skip(1);
                            if s4.len() < tlen {
                                None
                            } else {
                                let t = s4.take(tlen);
                                match parse_comps_spec(s4.skip(tlen), dim as nat) {
                                    None => None,
                                    Some((e, s6)) => {
                                        if s6.len() == 0 || s6[0] != '\n' {
                                            None
                                        } else {
                                            Some((t, e, s6.skip(1)))
                                        }
                                    },
                                }
                            }
                        }
                    },
                }
            }
        },
    }
}

/// Parses a whole file: record lines until the end; anything else fails.
pub open spec fn parse_spec(s: Seq<char>) -> Option<Seq<(Seq<char>, Seq<i32>)>>
    decreases s.len(),
{
    if s.len() == 0 {
        Some(Seq::empty())
    } else {
        match parse_rec_spec(s) {
            None => None,
            Some((t, e, rest)) => {
                if rest.len() < s.len() {
                    match parse_spec(rest) {
                        None => None,
                        Some(v) => Some(seq![(t, e)] + v),
                    }
                } else {
                    None
                }
            },
        }
    }
}

pub proof fn lemma_dec_digits(n: nat)
    ensures
        dec_spec(n).len() >= 1,
        forall|i: int| 0 <= i < dec_spec(n).len() ==> is_digit(#[trigger] dec_spec(n)[i]),
    decreases n,
{
    if n >= 10 {
        lemma_dec_digits(n / 10);
        assert(forall|i: int|
            0 <= i < dec_spec(n / 10).len() ==> #[trigger] dec_spec(n)[i] == dec_spec(n / 10)[i]);
        assert(dec_spec(n).last() == digit_char((n % 10) as int));
    }
}

pub proof fn lemma_dec_len(n: nat, k: nat)
    requires
        1 <= k,
        n < pow10(k),
    ensures
        dec_spec(n).len() <= k,
    decreases n,
{
    if n >= 10 {
        if k == 1 {
            assert(pow10(1) == 10) by {
                reveal_with_fuel(pow10, 3);
            }
            assert(false);
        }
        assert(pow10(k) == 10 * pow10((k - 1) as nat));
        lemma_dec_len(n / 10, (k - 1) as nat);
    }
}

pub proof fn lemma_dec_val(n: nat)
    ensures
        val_spec(dec_spec(n)) == n,
    decreases n,
{
    if n < 10 {
        assert(dec_spec(n) == seq![digit_char(n as int)]);
        assert(dec_spec(n).drop_last() =~= Seq::<char>::empty());
        assert(val_spec(Seq::<char>::empty()) == 0);
        assert(val_spec(dec_spec(n)) == val_spec(dec_spec(n).drop_last()) * 10 + digit_val(
            dec_spec(n).last(),
        ));
    } else {
        lemma_dec_val(n / 10);
        assert(dec_spec(n).drop_last() =~= dec_spec(n / 10));
        lemma_fundamental_div_mod(n as int, 10);
    }
}

pub proof fn lemma_digits_prefix_exact(s: Seq<char>, k: int)
    requires
        0 <= k <= s.len(),
        forall|i: int| 0 <= i < k ==> is_digit(#[trigger] s[i]),
        k == s.len() || !is_digit(s[k]),
    ensures
        digits_prefix_spec(s) == k,
    decreases k,
{
    if k == 0 {
    } else {
        assert(is_digit(s[0]));
        let s1 = s.skip(1);
        assert(forall|i: int| 0 <= i < k - 1 ==> #[trigger] s1[i] == s[i + 1]);
        lemma_digits_prefix_exact(s1, k - 1);
    }
}

pub proof fn lemma_digits_prefix_len(s: Seq<char>)
    ensures
        0 <= digits_prefix_spec(s) <= s.len(),
    decreases s.len(),
{
    if s.len() > 0 && is_digit(s[0]) {
        lemma_digits_prefix_len(s.skip(1));
    }
}

pub proof fn lemma_parse_nat_round(n: nat, rest: Seq<char>)
    requires
        n < pow10(9),
        rest.len() == 0 || !is_digit(rest[0]),
    ensures
        parse_nat_spec(dec_spec(n) + rest) == Some((n as int, rest)),
{
    let d = dec_spec(n);
    let s = d + rest;
    lemma_dec_digits(n);
    lemma_dec_len(n, 9);
    lemma_dec_val(n);
    assert(forall|i: int| 0 <= i < d.len() ==> #[trigger] s[i] == d[i]);
    if rest.len() > 0 {
        assert(s[d.len() as int] == rest[0]);
    }
    lemma_digits_prefix_exact(s, d.len() as int);
    assert(s.take(d.len() as int) =~= d);
    assert(s.skip(d.len() as int) =~= rest);
}

pub proof fn lemma_parse_comps_round(e: Seq<i32>, rest: Seq<char>)
    requires
        bounded(e, SCALE as int),
        rest.len() == 0 || !is_digit(rest[0]),
    ensures
        parse_comps_spec(comps_render(e) + rest, e.len()) == Some((e, rest)),
    decreases e.len(),
{
    if e.len() == 0 {
        assert(comps_render(e) + rest =~= rest);
    } else {
        let x = e[0];
        assert(-(SCALE as int) <= x as int <= SCALE as int);
        let b = ((x as int) + (SCALE as int)) as nat;
        let d = comp_chars(x);
        let tail = comps_render(e.skip(1));
        let s = comps_render(e) + rest;
        assert(comps_render(e) == seq![' '] + d + tail);
        assert(s[0] == ' ');
        assert(s.len() > 0);
        // after the space: the biased digits, then the remaining components.
        assert(s.skip(1) =~= d + (tail + rest));
        if tail.len() > 0 {
            assert(tail == seq![' '] + comp_chars(e.skip(1)[0]) + comps_render(e.skip(1).skip(1)));
            assert((tail + rest)[0] == ' ');
        }
        assert(b < pow10(9)) by {
            lemma_pow10_nine();
        }
        lemma_parse_nat_round(b, tail + rest);
        assert(parse_nat_spec(s.skip(1)) == Some((b as int, tail + rest)));
        assert(b as int <= 2 * (SCALE as int));
        lemma_parse_comps_round(e.skip(1), rest);
        assert(parse_comps_spec(tail + rest, e.skip(1).len()) == Some((e.skip(1), rest)));
        assert((b as int - (SCALE as int)) as i32 == x);
        assert(seq![x] + e.skip(1) =~= e);
        assert(parse_comps_spec(s, e.len()) == Some((e, rest)));
    }
}

#[verifier::rlimit(100)]
#[verifier::spinoff_prover]
pub proof fn lemma_parse_rec_round(v: (Seq<char>, Seq<i32>), rest: Seq<char>)
    requires
        view_wf(v),
    ensures
        parse_rec_spec(rec_render(v) + rest) == Some((v.0, v.1, rest)),
{
    let t = v.0;
    let e = v.1;
    let dt = dec_spec(t.len());
    let dd = dec_spec(e.len());
    let cs = comps_render(e);
    lemma_pow10_nine();
    let r5 = seq!['\n'] + rest;
    let r4 = cs + r5;
    let r3 = t + r4;
    let r2 = seq![' '] + r3;
    let r1 = dd + r2;
    let r0 = seq![' '] + r1;
    let s = rec_render(v) + rest;
    assert(s =~= dt + r0);
    // the text-length field, followed by a space.
    lemma_parse_nat_round(t.len(), r0);
    assert(parse_nat_spec(s) == Some((t.len() as int, r0)));
    assert(r0[0] == ' ');
    assert(r0.skip(1) =~= r1);
    // the dimension field, followed by a space.
    lemma_parse_nat_round(e.len(), r2);
    assert(parse_nat_spec(r1) == Some((e.len() as int, r2)));
    assert(r2[0] == ' ');
    assert(r2.skip(1) =~= r3);
    // exactly the text's characters, no terminator needed.
    assert(r3.len() >= t.len());
    assert(r3.take(t.len() as int) =~= t);
    assert(r3.skip(t.len() as int) =~= r4);
    // the components, delimited by the final newline.
    lemma_parse_comps_round(e, r5);
    assert(parse_comps_spec(r4, e.len()) == Some((e, r5)));
    assert(r5[0] == '\n');
    assert(r5.skip(1) =~= rest);
}

/// Every rendered store parses back to exactly itself. This is the heart of
/// the persistence round trip: saving, loading, and saving again writes the
/// same characters.
pub proof fn lemma_render_parse_round_trip(vs: Seq<(Seq<char>, Seq<i32>)>)
    requires
        views_wf(vs),
    ensures
        parse_spec(render_spec(vs)) == Some(vs),
    decreases vs.len(),
{
    if vs.len() == 0 {
    } else {
        let s = render_spec(vs);
        let rest = render_spec(vs.skip(1));
        assert(view_wf(vs[0]));
        lemma_parse_rec_round(vs[0], rest);
        assert(s == rec_render(vs[0]) + rest);
        assert(rec_render(vs[0]).len() >= 1);
        assert(s.len() >= rest.len() + 1);
        assert(parse_rec_spec(s) == Some((vs[0].0, vs[0].1, rest)));
        assert(views_wf(vs.skip(1))) by {
            assert(forall|i: int|
                0 <= i < vs.skip(1).len() ==> #[trigger] vs.skip(1)[i] == vs[i + 1]);
        }
        lemma_render_parse_round_trip(vs.skip(1));
        assert((vs[0].0, vs[0].1) == vs[0]);
        assert(seq![vs[0]] + vs.skip(1) =~= vs);
    }
}

pub proof fn lemma_val_bound(ds: Seq<char>)
    ensures
        0 <= val_spec(ds) < pow10(ds.len()),
    decreases ds.len(),
{
    if ds.len() == 0 {
    } else {
        lemma_val_bound(ds.drop_last());
        assert(pow10(ds.len()) == 10 * pow10((ds.len() - 1) as nat));
        assert(0 <= digit_val(ds.last()) <= 9);
    }
}

pub proof fn lemma_parse_comps_wf(s: Seq<char>, k: nat)
    ensures
        parse_comps_spec(s, k) is Some ==> {
            let (e, rest) = parse_comps_spec(s, k)->Some_0;
            &&& e.len() == k
            &&& bounded(e, SCALE as int)
            &&& rest.len() <= s.len()
        },
    decreases k,
{
    if k > 0 && parse_comps_spec(s, k) is Some {
        let (b, s2) = parse_nat_spec(s.skip(1))->Some_0;
        let dp = digits_prefix_spec(s.skip(1));
        lemma_digits_prefix_len(s.skip(1));
        lemma_val_bound(s.skip(1).take(dp));
        assert(0 <= b);
        assert(b <= 2 * (SCALE as int));
        lemma_parse_comps_wf(s2, (k - 1) as nat);
        let (e1, rest) = parse_comps_spec(s2, (k - 1) as nat)->Some_0;
        let e = parse_comps_spec(s, k)->Some_0.0;
        assert(e == seq![(b - (SCALE as int)) as i32] + e1);
        assert(-(SCALE as int) <= (b - (SCALE as int)) as i32 <= SCALE as int);
        assert(forall|i: int| 0 <= i < e1.len() ==> #[trigger] e[i + 1] == e1[i]);
        assert(bounded(e, SCALE as int));
    }
}

pub proof fn lemma_parse_rec_wf(s: Seq<char>)
    ensures
        parse_rec_spec(s) is Some ==> {
            let (t, e, rest) = parse_rec_spec(s)->Some_0;
            &&& view_wf((t, e))
            &&& rest.len() < s.len()
        },
{
    if parse_rec_spec(s) is Some {
        let (tlen, s1) = parse_nat_spec(s)->Some_0;
        let (dim, s3) = parse_nat_spec(s1.skip(1))->Some_0;
        let s4 = s3.skip(1);
        let t = s4.take(tlen);
        lemma_digits_prefix_len(s);
        lemma_digits_prefix_len(s1.skip(1));
        lemma_val_bound(s.take(digits_prefix_spec(s)));
        lemma_val_bound(s1.skip(1).take(digits_prefix_spec(s1.skip(1))));
        lemma_pow10_nine();
        assert(tlen < 1_000_000_000) by {
            assert(pow10(digits_prefix_spec(s) as nat) <= pow10(9)) by {
                lemma_pow10_mono(digits_prefix_spec(s) as nat, 9);
            }
        }
        assert(dim < 1_000_000_000) by {
            lemma_pow10_mono(digits_prefix_spec(s1.skip(1)) as nat, 9);
        }
        lemma_parse_comps_wf(s4.skip(tlen), dim as nat);
    }
}

pub proof fn lemma_pow10_mono(a: nat, b: nat)
    requires
        a <= b,
    ensures
        pow10(a) <= pow10(b),
    decreases b,
{
    if a < b {
        lemma_pow10_mono(a, (b - 1) as nat);
        assert(pow10((b - 1) as nat) >= 1) by {
            lemma_pow10_pos((b - 1) as nat);
        }
    }
}

pub proof fn lemma_pow10_nine()
    ensures
        pow10(9) == 1_000_000_000,
{
    reveal_with_fuel(pow10, 11);
}

pub proof fn lemma_pow10_pos(k: nat)
    ensures
        pow10(k) >= 1,
    decreases k,
{
    if k > 0 {
        lemma_pow10_pos((k - 1) as nat);
    }
}

/// Whatever parses is representable, so it can be rendered again.
pub proof fn lemma_parse_wf(s: Seq<char>)
    ensures
        parse_spec(s) is Some ==> views_wf(parse_spec(s)->Some_0),
    decreases s.len(),
{
    if s.len() > 0 && parse_spec(s) is Some {
        let (t, e, rest) = parse_rec_spec(s)->Some_0;
        lemma_parse_rec_wf(s);
        lemma_parse_wf(rest);
        let v = parse_spec(rest)->Some_0;
        let out = parse_spec(s)->Some_0;
        assert(out == seq![(t, e)] + v);
        assert(out[0] == (t, e));
        assert(forall|i: int| 0 <= i < v.len() ==> #[trigger] out[i + 1] == v[i]);
        assert(views_wf(out)) by {
            assert(forall|i: int|
                0 <= i < out.len() ==> view_wf(#[trigger] out[i])) by {
                assert forall|i: int| 0 <= i < out.len() implies view_wf(#[trigger] out[i]) by {
                    if i == 0 {
                    } else {
                        assert(out[i] == v[i - 1]);
                    }
                }
            }
        }
    }
}

/// Loading a saved file and saving again writes the same characters: the
/// persistence pair is idempotent from the first save on.
pub proof fn lemma_save_load_idempotent(c: Seq<char>)
    requires
        parse_spec(c) is Some,
    ensures
        parse_spec(render_spec(parse_spec(c)->Some_0)) == Some(parse_spec(c)->Some_0),
{
    lemma_parse_wf(c);
    lemma_render_parse_round_trip(parse_spec(c)->Some_0);
}


/// Appending one component extends the rendered components on the right.
pub proof fn lemma_comps_snoc(e: Seq<i32>, x: i32)
    ensures
        comps_render(e.push(x)) == comps_render(e) + (seq![' '] + comp_chars(x)),
    decreases e.len(),
{
    if e.len() == 0 {
        assert(e.push(x)[0] == x);
        assert(e.push(x).skip(1) =~= e);
        assert(comps_render(e.push(x)) == seq![' '] + comp_chars(x) + comps_render(e));
        assert(comps_render(e.push(x)) =~= comps_render(e) + (seq![' '] + comp_chars(x)));
    } else {
        assert(e.push(x)[0] == e[0]);
        assert(e.push(x).skip(1) =~= e.skip(1).push(x));
        assert(comps_render(e.push(x)) == seq![' '] + comp_chars(e[0]) + comps_render(
            e.skip(1).push(x),
        ));
        lemma_comps_snoc(e.skip(1), x);
        assert(comps_render(e.skip(1).push(x)) == comps_render(e.skip(1)) + (seq![' ']
            + comp_chars(x)));
        assert(comps_render(e) == seq![' '] + comp_chars(e[0]) + comps_render(e.skip(1)));
        assert(comps_render(e.push(x)) =~= comps_render(e) + (seq![' '] + comp_chars(x)));
    }
}

/// Appending one record extends the rendered store by one line.
pub proof fn lemma_render_snoc(vs: Seq<(Seq<char>, Seq<i32>)>, v: (Seq<char>, Seq<i32>))
    ensures
        render_spec(vs.push(v)) == render_spec(vs) + rec_render(v),
    decreases vs.len(),
{
    if vs.len() == 0 {
        assert(vs.push(v)[0] == v);
        assert(vs.push(v).skip(1) =~= vs);
        assert(render_spec(vs.push(v)) == rec_render(v) + render_spec(vs));
        assert(render_spec(vs.push(v)) =~= render_spec(vs) + rec_render(v));
    } else {
        assert(vs.push(v)[0] == vs[0]);
        assert(vs.push(v).skip(1) =~= vs.skip(1).push(v));
        assert(render_spec(vs.push(v)) == rec_render(vs[0]) + render_spec(vs.skip(1).push(v)));
        lemma_render_snoc(vs.skip(1), v);
        assert(render_spec(vs.skip(1).push(v)) == render_spec(vs.skip(1)) + rec_render(v));
        assert(render_spec(vs) == rec_render(vs[0]) + render_spec(vs.skip(1)));
        assert(render_spec(vs.push(v)) =~= render_spec(vs) + rec_render(v));
    }
}

/// A run of digits at the front keeps the digit prefix at least that long.
pub proof fn lemma_digits_prefix_min(s: Seq<char>, k: int)
    requires
        0 <= k <= s.len(),
        forall|i: int| 0 <= i < k ==> is_digit(#[trigger] s[i]),
    ensures
        digits_prefix_spec(s) >= k,
    decreases k,
{
    if k > 0 {
        assert(is_digit(s[0]));
        let s1 = s.skip(1);
        assert(forall|i: int| 0 <= i < k - 1 ==> #[trigger] s1[i] == s[i + 1]);
        lemma_digits_prefix_min(s1, k - 1);
    } else {
        lemma_digits_prefix_len(s);
    }
}

fn digit_ch(d: u32) -> (c: char)
    requires
        d < 10,
    ensures
        c == digit_char(d as int),
{
    match d {
        0 => '0',
        1 => '1',
        2 => '2',
        3 => '3',
        4 => '4',
        5 => '5',
        6 => '6',
        7 => '7',
        8 => '8',
        _ => '9',
    }
}

fn digit_of(c: char) -> (r: Option<u32>)
    ensures
        r is Some <==> is_digit(c),
        r is Some ==> r->Some_0 as int == digit_val(c) && r->Some_0 < 10,
{
    match c {
        '0' => Some(0),
        '1' => Some(1),
        '2' => Some(2),
        '3' => Some(3),
        '4' => Some(4),
        '5' => Some(5),
        '6' => Some(6),
        '7' => Some(7),
        '8' => Some(8),
        '9' => Some(9),
        _ => None,
    }
}

/// Appends the decimal digits of `n`.
pub fn push_dec(out: &mut Vec<char>, n: u32)
    requires
        n < 1_000_000_000,
    ensures
        final(out)@ == old(out)@ + dec_spec(n as nat),
    decreases n,
{
    if n < 10 {
        out.push(digit_ch(n));
        proof {
            assert(out@ =~= old(out)@ + dec_spec(n as nat));
        }
    } else {
        push_dec(out, n / 10);
        out.push(digit_ch(n % 10));
        proof {
            assert(out@ =~= old(out)@ + dec_spec(n as nat));
        }
    }
}

/// Renders a store into characters, exactly `render_spec`.
pub fn render_chars(records: &Vec<crate::store::NoteRecord>) -> (out: Vec<char>)
    requires
        views_wf(crate::store::store_views(records@)),
    ensures
        out@ == render_spec(crate::store::store_views(records@)),
{
    let ghost vs = crate::store::store_views(records@);
    let mut out: Vec<char> = Vec::new();
    let mut i: usize = 0;
    proof {
        assert(vs.take(0) =~= Seq::<(Seq<char>, Seq<i32>)>::empty());
        assert(out@ =~= render_spec(vs.take(0)));
    }
    while i < records.len()
        invariant
            0 <= i <= records@.len(),
            vs == crate::store::store_views(records@),
            vs.len() == records@.len(),
            views_wf(vs),
            out@ == render_spec(vs.take(i as int)),
        decreases records@.len() - i,
    {
        let ghost base = out@;
        let ghost v = vs[i as int];
        proof {
            assert(vs[i as int] == crate::store::rec_view(records@[i as int]));
            assert(view_wf(vs[i as int]));
        }
        let rec = &records[i];
        let tlen = rec.text.as_str().unicode_len();
        proof {
            assert(tlen as int == v.0.len());
            assert(tlen <= 999_999_999);
        }
        push_dec(&mut out, tlen as u32);
        out.push(' ');
        let dim = rec.embedding.len();
        proof {
            assert(dim as int == v.1.len());
            assert(dim <= 999_999_999);
        }
        push_dec(&mut out, dim as u32);
        out.push(' ');
        let ghost header = base + dec_spec(v.0.len()) + seq![' '] + dec_spec(v.1.len()) + seq![' '];
        proof {
            assert(out@ =~= header);
        }
        // the text itself
        let mut j: usize = 0;
        while j < tlen
            invariant
                0 <= j <= tlen,
                tlen as int == v.0.len(),
                rec.text@ == v.0,
                out@ == header + v.0.take(j as int),
            decreases tlen - j,
        {
            let c = rec.text.as_str().get_char(j);
            out.push(c);
            proof {
                assert(out@ =~= header + v.0.take(j as int + 1));
            }
            j = j + 1;
        }
        let ghost with_text = header + v.0;
        proof {
            assert(v.0.take(tlen as int) =~= v.0);
            assert(out@ =~= with_text);
        }
        // the components, biased to be non-negative
        let mut p: usize = 0;
        proof {
            assert(v.1.take(0) =~= Seq::<i32>::empty());
            assert(out@ =~= with_text + comps_render(v.1.take(0)));
        }
        while p < dim
            invariant
                0 <= p <= dim,
                dim as int == v.1.len(),
                rec.embedding@ == v.1,
                bounded(v.1, SCALE as int),
                out@ == with_text + comps_render(v.1.take(p as int)),
            decreases dim - p,
        {
            out.push(' ');
            let x = rec.embedding[p];
            proof {
                assert(-(SCALE as int) <= v.1[p as int] <= SCALE as int);
            }
            let b: u32 = ((x as i64) + (SCALE as i64)) as u32;
            push_dec(&mut out, b);
            proof {
                assert(b as nat == ((v.1[p as int] as int) + (SCALE as int)) as nat);
                lemma_comps_snoc(v.1.take(p as int), v.1[p as int]);
                assert(v.1.take(p as int).push(v.1[p as int]) =~= v.1.take(p as int + 1));
                assert(out@ =~= with_text + comps_render(v.1.take(p as int + 1)));
            }
            p = p + 1;
        }
        out.push('\n');
        proof {
            assert(v.1.take(dim as int) =~= v.1);
            assert(out@ =~= base + rec_render(v));
            lemma_render_snoc(vs.take(i as int), v);
            assert(vs.take(i as int).push(v) =~= vs.take(i as int + 1));
            assert(out@ =~= render_spec(vs.take(i as int + 1)));
        }
        i = i + 1;
    }
    proof {
        assert(vs.take(vs.len() as int) =~= vs);
    }
    out
}

/// Relies on `String::from_iter`, which concatenates the characters of the
/// iterator in order.
#[verifier::external_body]
pub(crate) fn chars_to_string(v: Vec<char>) -> (s: String)
    ensures
        s@ == v@,
{
    String::from_iter(v)
}

/// The characters of `s`, as a vector.
pub fn str_to_chars(s: &str) -> (v: Vec<char>)
    ensures
        v@ == s@,
{
    let n = s.unicode_len();
    let mut v: Vec<char> = Vec::new();
    let mut i: usize = 0;
    while i < n
        invariant
            0 <= i <= n,
            n as int == s@.len(),
            v@.len() == i as int,
            forall|j: int| 0 <= j < i as int ==> #[trigger] v@[j] == s@[j],
        decreases n - i,
    {
        v.push(s.get_char(i));
        i = i + 1;
    }
    proof {
        assert(v@ =~= s@);
    }
    v
}

/// Length of the digit run at `pos`, up to ten characters.
fn count_digit_prefix(v: &Vec<char>, pos: usize) -> (k: usize)
    requires
        pos <= v@.len(),
    ensures
        0 <= k <= 10,
        pos + k <= v@.len(),
        forall|j: int| 0 <= j < k as int ==> is_digit(#[trigger] v@.skip(pos as int)[j]),
        k < 10 ==> pos + k == v@.len() || !is_digit(v@.skip(pos as int)[k as int]),
{
    let ghost s = v@.skip(pos as int);
    proof {
        assert(v.len() == v@.len());
        assert(forall|j: int| 0 <= j < s.len() ==> #[trigger] s[j] == v@[pos + j]);
    }
    let mut k: usize = 0;
    while k < 10
        invariant
            0 <= k <= 10,
            pos + k <= v@.len() <= usize::MAX as int,
            pos <= v@.len(),
            s == v@.skip(pos as int),
            forall|j: int| 0 <= j < k as int ==> is_digit(#[trigger] s[j]),
        decreases 10 - k,
    {
        if pos + k == v.len() {
            return k;
        }
        let d = digit_of(v[pos + k]);
        if d.is_none() {
            return k;
        }
        k = k + 1;
    }
    k
}

/// Greedy decimal number at `pos`, exactly `parse_nat_spec`.
fn parse_nat_at(v: &Vec<char>, pos: usize) -> (r: Option<(u32, usize)>)
    requires
        pos <= v@.len(),
    ensures
        (match r {
            Some(p) => parse_nat_spec(v@.skip(pos as int)) == Some(
                (p.0 as int, v@.skip(p.1 as int)),
            ) && pos < p.1 <= v@.len() && p.0 < 1_000_000_000,
            None => parse_nat_spec(v@.skip(pos as int)) is None,
        }),
{
    let ghost s = v@.skip(pos as int);
    proof {
        assert(v.len() == v@.len());
        assert(forall|j: int| 0 <= j < s.len() ==> #[trigger] s[j] == v@[pos + j]);
    }
    let k = count_digit_prefix(v, pos);
    if k == 0 {
        proof {
            lemma_digits_prefix_exact(s, 0);
        }
        return None;
    }
    if k == 10 {
        proof {
            lemma_digits_prefix_min(s, 10);
        }
        return None;
    }
    proof {
        assert(pos + k as int == v@.len() || !is_digit(s[k as int]));
        lemma_digits_prefix_exact(s, k as int);
    }
    let mut acc: u32 = 0;
    let mut j: usize = 0;
    proof {
        assert(s.take(0) =~= Seq::<char>::empty());
        lemma_pow10_nine();
    }
    while j < k
        invariant
            0 <= j <= k < 10,
            pos + k <= v@.len() <= usize::MAX as int,
            s == v@.skip(pos as int),
            acc as int == val_spec(s.take(j as int)),
            0 <= acc as int && (acc as int) < pow10(j as nat),
            forall|jj: int| 0 <= jj < k as int ==> is_digit(#[trigger] s[jj]),
        decreases k - j,
    {
        let d = match digit_of(v[pos + j]) {
            Some(d) => d,
            None => {
                proof {
                    assert(is_digit(s[j as int]));
                    assert(false);
                }
                0
            },
        };
        proof {
            lemma_pow10_mono((j + 1) as nat, 9);
            lemma_pow10_nine();
            assert(pow10((j + 1) as nat) == 10 * pow10(j as nat));
            assert(s.take(j as int + 1).drop_last() =~= s.take(j as int));
            assert(s.take(j as int + 1).last() == s[j as int]);
            assert(d as int == digit_val(s[j as int]));
        }
        acc = acc * 10 + d;
        j = j + 1;
    }
    proof {
        assert(s.skip(k as int) =~= v@.skip(pos as int + k as int));
        lemma_pow10_mono(k as nat, 9);
        lemma_pow10_nine();
    }
    Some((acc, pos + k))
}


/// Parses one record line at `pos`, exactly `parse_rec_spec`.
#[verifier::rlimit(100)]
#[verifier::spinoff_prover]
#[verifier::loop_isolation(false)]
fn parse_rec_at(v: &Vec<char>, pos: usize) -> (r: Option<(crate::store::NoteRecord, usize)>)
    requires
        pos <= v@.len(),
    ensures
        (match r {
            Some(p) => parse_rec_spec(v@.skip(pos as int)) == Some(
                (p.0.text@, p.0.embedding@, v@.skip(p.1 as int)),
            ) && pos < p.1 <= v@.len(),
            None => parse_rec_spec(v@.skip(pos as int)) is None,
        }),
{
    let ghost s = v@.skip(pos as int);
    proof {
        assert(v.len() == v@.len());
    }
    let (tlen, p1) = match parse_nat_at(v, pos) {
        Some(p) => p,
        None => {
            return None;
        },
    };
    let ghost s1 = v@.skip(p1 as int);
    if p1 == v.len() {
        return None;
    }
    proof {
        assert(s1[0] == v@[p1 as int]);
    }
    if !(v[p1] == ' ') {
        return None;
    }
    let p2 = p1 + 1;
    proof {
        assert(s1.skip(1) =~= v@.skip(p2 as int));
    }
    let (dim, p3) = match parse_nat_at(v, p2) {
        Some(p) => p,
        None => {
            return None;
        },
    };
    let ghost s3 = v@.skip(p3 as int);
    if p3 == v.len() {
        return None;
    }
    proof {
        assert(s3[0] == v@[p3 as int]);
    }
    if !(v[p3] == ' ') {
        return None;
    }
    let p4 = p3 + 1;
    let ghost s4 = v@.skip(p4 as int);
    proof {
        assert(s3.skip(1) =~= s4);
        assert(s4.len() == v@.len() - p4 as int);
    }
    let tlen_us: usize = tlen as usize;
    if v.len() - p4 < tlen_us {
        return None;
    }
    let mut tv: Vec<char> = Vec::new();
    let mut j: usize = 0;
    while j < tlen_us
        invariant
            0 <= j <= tlen_us,
            p4 + tlen_us <= v@.len() <= usize::MAX as int,
            tv@.len() == j as int,
            forall|jj: int| 0 <= jj < j as int ==> #[trigger] tv@[jj] == v@[p4 + jj],
        decreases tlen_us - j,
    {
        tv.push(v[p4 + j]);
        j = j + 1;
    }
    proof {
        assert(tv@ =~= s4.take(tlen as int));
    }
    let text = chars_to_string(tv);
    let p5 = p4 + tlen_us;
    let ghost s5 = v@.skip(p5 as int);
    proof {
        assert(s4.skip(tlen as int) =~= s5);
    }
    let dim_us: usize = dim as usize;
    let ghost k0 = dim_us as nat;
    let mut e: Vec<i32> = Vec::new();
    let mut q: usize = p5;
    let mut cnt: usize = 0;
    proof {
        assert(e@ =~= Seq::<i32>::empty());
        let inn0 = parse_comps_spec(s5, k0);
        if inn0 is Some {
            let pr = inn0->Some_0;
            assert(e@ + pr.0 =~= pr.0);
            assert((e@ + pr.0, pr.1) == pr);
        }
    }
    while cnt < dim_us
        invariant
            0 <= cnt <= dim_us,
            p5 <= q <= v@.len() <= usize::MAX as int,
            e@.len() == cnt as int,
            s5 == v@.skip(p5 as int),
            parse_comps_spec(s5, k0) == (match parse_comps_spec(
                v@.skip(q as int),
                (dim_us - cnt) as nat,
            ) {
                None => None,
                Some(pr) => Some((e@ + pr.0, pr.1)),
            }),
        decreases dim_us - cnt,
    {
        let ghost cur = v@.skip(q as int);
        let ghost krem = (dim_us - cnt) as nat;
        if q == v.len() {
            return None;
        }
        proof {
            assert(cur[0] == v@[q as int]);
        }
        if !(v[q] == ' ') {
            return None;
        }
        proof {
            assert(cur.skip(1) =~= v@.skip(q as int + 1));
        }
        let (b, qn) = match parse_nat_at(v, q + 1) {
            Some(p) => p,
            None => {
                return None;
            },
        };
        if b > 2048 {
            proof {
                assert(b as int > 2 * (SCALE as int));
            }
            return None;
        }
        let comp: i32 = (b as i32) - (SCALE as i32);
        let ghost eold = e@;
        e.push(comp);
        proof {
            assert(b as int <= 2 * (SCALE as int));
            assert(comp as int == b as int - (SCALE as int));
            assert((b as int - (SCALE as int)) as i32 == comp);
            let inn = parse_comps_spec(v@.skip(qn as int), (krem - 1) as nat);
            if inn is Some {
                let pr = inn->Some_0;
                assert(parse_comps_spec(cur, krem) == Some((seq![comp] + pr.0, pr.1)));
                assert(eold + (seq![comp] + pr.0) =~= e@ + pr.0);
            } else {
                assert(parse_comps_spec(cur, krem) is None);
            }
        }
        q = qn;
        cnt = cnt + 1;
    }
    proof {
        assert(parse_comps_spec(v@.skip(q as int), 0) == Some(
            (Seq::<i32>::empty(), v@.skip(q as int)),
        ));
        assert(e@ + Seq::<i32>::empty() =~= e@);
        assert(parse_comps_spec(s5, k0) == Some((e@, v@.skip(q as int))));
    }
    let ghost s6 = v@.skip(q as int);
    if q == v.len() {
        return None;
    }
    proof {
        assert(s6[0] == v@[q as int]);
    }
    if !(v[q] == '\n') {
        return None;
    }
    let p6 = q + 1;
    proof {
        assert(s6.skip(1) =~= v@.skip(p6 as int));
        assert(parse_rec_spec(s) == Some((text@, e@, v@.skip(p6 as int))));
    }
    Some((crate::store::NoteRecord { text, embedding: e }, p6))
}

/// Parses a whole store, exactly `parse_spec`.
pub fn parse_chars(v: &Vec<char>) -> (r: Option<Vec<crate::store::NoteRecord>>)
    ensures
        (match r {
            Some(recs) => parse_spec(v@) == Some(crate::store::store_views(recs@)),
            None => parse_spec(v@) is None,
        }),
{
    let mut acc: Vec<crate::store::NoteRecord> = Vec::new();
    let mut pos: usize = 0;
    proof {
        assert(v.len() == v@.len());
        assert(v@.skip(0) =~= v@);
        assert(crate::store::store_views(acc@) =~= Seq::<(Seq<char>, Seq<i32>)>::empty());
        if parse_spec(v@) is Some {
            assert(crate::store::store_views(acc@) + parse_spec(v@)->Some_0 =~= parse_spec(
                v@,
            )->Some_0);
        }
    }
    while pos < v.len()
        invariant
            0 <= pos <= v@.len() <= usize::MAX as int,
            parse_spec(v@) == (match parse_spec(v@.skip(pos as int)) {
                None => None,
                Some(tail) => Some(crate::store::store_views(acc@) + tail),
            }),
        decreases v@.len() - pos,
    {
        let ghost cur = v@.skip(pos as int);
        proof {
            assert(cur.len() > 0);
        }
        match parse_rec_at(v, pos) {
            None => {
                proof {
                    assert(parse_spec(cur) is None);
                }
                return None;
            },
            Some(p) => {
                let (rec, p2) = p;
                proof {
                    let t = rec.text@;
                    let ee = rec.embedding@;
                    let rest = v@.skip(p2 as int);
                    assert(rest.len() < cur.len());
                    let inn = parse_spec(rest);
                    if inn is Some {
                        assert(parse_spec(cur) == Some(seq![(t, ee)] + inn->Some_0));
                        assert(crate::store::store_views(acc@.push(rec)) =~= crate::store::store_views(
                            acc@,
                        ).push((t, ee)));
                        assert(crate::store::store_views(acc@) + (seq![(t, ee)] + inn->Some_0)
                            =~= crate::store::store_views(acc@.push(rec)) + inn->Some_0);
                    } else {
                        assert(parse_spec(cur) is None);
                    }
                }
                acc.push(rec);
                pos = p2;
            },
        }
    }
    proof {
        assert(v@.skip(pos as int) =~= Seq::<char>::empty());
        assert(parse_spec(v@.skip(pos as int)) == Some(Seq::<(Seq<char>, Seq<i32>)>::empty()));
        assert(crate::store::store_views(acc@) + Seq::<(Seq<char>, Seq<i32>)>::empty()
            =~= crate::store::store_views(acc@));
    }
    Some(acc)
}

/// A failure to read back persisted state.
#[derive(Clone, Copy, Debug, PartialEq, Eq)]
pub enum PersistenceError {
    /// The persisted text is not the rendering of any store.
    Malformed,
}

/// Serializes the whole store; the caller writes the result to disk,
/// replacing what was there.
pub fn save(records: &Vec<crate::store::NoteRecord>) -> (s: String)
    requires
        views_wf(crate::store::store_views(records@)),
    ensures
        s@ == render_spec(crate::store::store_views(records@)),
{
    chars_to_string(render_chars(records))
}

/// Reads a store back from persisted text; malformed text fails the whole
/// load, it is never partially recovered.
pub fn load(content: &str) -> (r: Result<Vec<crate::store::NoteRecord>, PersistenceError>)
    ensures
        (match r {
            Ok(recs) => parse_spec(content@) == Some(crate::store::store_views(recs@)),
            Err(e) => (parse_spec(content@) is None) && e == PersistenceError::Malformed,
        }),
{
    let chars = str_to_chars(content);
    match parse_chars(&chars) {
        Some(recs) => Ok(recs),
        None => Err(PersistenceError::Malformed),
    }
}

} // verus!
