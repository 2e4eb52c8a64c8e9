//! The weight-table text grammar.
//!
//! An entry line is one or more hexadecimal code points, a `;`, and one or
//! more elements `[<mark><w1>.<w2>.<w3>.<w4>]`, where the mark is `.` or `*`,
//! one to four weights are given, and absent weights count as 0. Blank lines
//! and lines whose first non-blank character is `#` or `@` carry no entry;
//! an entry line may end in a `#` comment.
//!
//! The spec functions here are the grammar itself: the executable scanners
//! are proved to return exactly what they describe.

use vstd::prelude::*;
use vstd::string::StrSliceExecFns;

verus! {

/// A parsed entry: its key (one or more code points) and its elements, each
/// element padded to the four per-level weights.
pub ghost struct RawEntry {
    pub code_points: Seq<u32>,
    pub elements: Seq<Seq<u16>>,
}

/// Blank characters inside a line.
pub open spec fn is_ws_char(c: char) -> bool {
    c == ' ' || c == '\t' || c == '\r'
}

pub open spec fn is_hex_char(c: char) -> bool {
    ||| '0' as u32 <= c as u32 && c as u32 <= '9' as u32
    ||| 'a' as u32 <= c as u32 && c as u32 <= 'f' as u32
    ||| 'A' as u32 <= c as u32 && c as u32 <= 'F' as u32
}

pub open spec fn hex_digit_val(c: char) -> nat
    recommends
        is_hex_char(c),
{
    let u = c as u32;
    if '0' as u32 <= u && u <= '9' as u32 {
        (u - '0' as u32) as nat
    } else if 'a' as u32 <= u && u <= 'f' as u32 {
        (u - 'a' as u32 + 10) as nat
    } else {
        (u - 'A' as u32 + 10) as nat
    }
}

/// First position at or after `pos` that does not hold a blank character.
pub open spec fn skip_ws(l: Seq<char>, pos: int) -> int
    decreases l.len() - pos,
{
    if pos < 0 || pos >= l.len() || !is_ws_char(l[pos]) {
        pos
    } else {
        skip_ws(l, pos + 1)
    }
}

pub proof fn lemma_skip_ws_bounds(l: Seq<char>, pos: int)
    requires
        0 <= pos <= l.len(),
    ensures
        pos <= skip_ws(l, pos) <= l.len(),
    decreases l.len() - pos,
{
    if pos < l.len() && is_ws_char(l[pos]) {
        lemma_skip_ws_bounds(l, pos + 1);
    }
}

/// First position at or after `pos` that does not hold a hex digit.
pub open spec fn hex_end(l: Seq<char>, pos: int) -> int
    decreases l.len() - pos,
{
    if pos < 0 || pos >= l.len() || !is_hex_char(l[pos]) {
        pos
    } else {
        hex_end(l, pos + 1)
    }
}

pub proof fn lemma_hex_end_bounds(l: Seq<char>, pos: int)
    requires
        0 <= pos <= l.len(),
    ensures
        pos <= hex_end(l, pos) <= l.len(),
    decreases l.len() - pos,
{
    if pos < l.len() && is_hex_char(l[pos]) {
        lemma_hex_end_bounds(l, pos + 1);
    }
}

/// The number a sequence of hex digits denotes, most significant first.
pub open spec fn hex_seq_val(s: Seq<char>) -> nat
    decreases s.len(),
{
    if s.len() == 0 {
        0
    } else {
        hex_seq_val(s.drop_last()) * 16 + hex_digit_val(s.last())
    }
}

pub open spec fn pow16(n: nat) -> nat
    decreases n,
{
    if n == 0 {
        1
    } else {
        16 * pow16((n - 1) as nat)
    }
}

pub proof fn lemma_hex_seq_val_bound(s: Seq<char>)
    requires
        forall|i: int| 0 <= i < s.len() ==> is_hex_char(#[trigger] s[i]),
    ensures
        hex_seq_val(s) < pow16(s.len()),
    decreases s.len(),
{
    if s.len() > 0 {
        lemma_hex_seq_val_bound(s.drop_last());
    }
}

/// A run of one to `max_digits` hex digits starting at `pos`, and the
/// position after it; `None` if no digit starts there or the run is longer.
pub open spec fn parse_hex(l: Seq<char>, pos: int, max_digits: int) -> Option<(int, nat)> {
    let e = hex_end(l, pos);
    if e == pos || e - pos > max_digits {
        None
    } else {
        Some((e, hex_seq_val(l.subrange(pos, e))))
    }
}

/// A code point: up to six hex digits, at most 0x10FFFF.
pub open spec fn parse_cp(l: Seq<char>, pos: int) -> Option<(int, u32)> {
    match parse_hex(l, pos, 6) {
        None => None,
        Some((e, v)) => if v <= 0x10FFFF {
            Some((e, v as u32))
        } else {
            None
        },
    }
}

/// A weight: up to four hex digits.
pub open spec fn parse_weight(l: Seq<char>, pos: int) -> Option<(int, u16)> {
    match parse_hex(l, pos, 4) {
        None => None,
        Some((e, v)) => Some((e, v as u16)),
    }
}

pub proof fn lemma_parse_hex_bounds(l: Seq<char>, pos: int, max_digits: int)
    requires
        0 <= pos <= l.len(),
        parse_hex(l, pos, max_digits) is Some,
    ensures
        pos < parse_hex(l, pos, max_digits)->Some_0.0 <= l.len(),
{
    lemma_hex_end_bounds(l, pos);
}

/// Weights after the first inside an element: `.W` up to `k` more times,
/// then the closing bracket.
pub open spec fn parse_weight_tail(l: Seq<char>, pos: int, k: nat) -> Option<(int, Seq<u16>)>
    decreases k,
{
    if 0 <= pos < l.len() && l[pos] == ']' {
        Some((pos + 1, Seq::empty()))
    } else if 0 <= pos < l.len() && l[pos] == '.' && k > 0 {
        match parse_weight(l, pos + 1) {
            None => None,
            Some((p, w)) => match parse_weight_tail(l, p, (k - 1) as nat) {
                None => None,
                Some((e, ws)) => Some((e, seq![w] + ws)),
            },
        }
    } else {
        None
    }
}

pub proof fn lemma_parse_weight_tail_bounds(l: Seq<char>, pos: int, k: nat)
    requires
        parse_weight_tail(l, pos, k) is Some,
    ensures
        pos < parse_weight_tail(l, pos, k)->Some_0.0 <= l.len(),
        parse_weight_tail(l, pos, k)->Some_0.1.len() <= k,
    decreases k,
{
    if 0 <= pos < l.len() && l[pos] == ']' {
    } else {
        let (p, w) = parse_weight(l, pos + 1)->Some_0;
        lemma_parse_hex_bounds(l, pos + 1, 4);
        lemma_parse_weight_tail_bounds(l, p, (k - 1) as nat);
    }
}

/// Pad a list of at most four weights with trailing zeros to the four levels.
pub open spec fn pad4(s: Seq<u16>) -> Seq<u16> {
    if s.len() >= 4 {
        s
    } else {
        s + Seq::new((4 - s.len()) as nat, |i: int| 0u16)
    }
}

/// One element: `[`, a `.` or `*` mark, one to four `.`-separated weights,
/// `]`. Missing weight fields count as 0.
pub open spec fn parse_element(l: Seq<char>, pos: int) -> Option<(int, Seq<u16>)> {
    if 0 <= pos && pos + 1 < l.len() && l[pos] == '[' && (l[pos + 1] == '.' || l[pos + 1]
        == '*') {
        match parse_weight(l, pos + 2) {
            None => None,
            Some((p, w1)) => match parse_weight_tail(l, p, 3) {
                None => None,
                Some((e, ws)) => Some((e, pad4(seq![w1] + ws))),
            },
        }
    } else {
        None
    }
}

pub proof fn lemma_parse_element_bounds(l: Seq<char>, pos: int)
    requires
        parse_element(l, pos) is Some,
    ensures
        pos < parse_element(l, pos)->Some_0.0 <= l.len(),
        parse_element(l, pos)->Some_0.1.len() == 4,
{
    let (p, w1) = parse_weight(l, pos + 2)->Some_0;
    lemma_parse_hex_bounds(l, pos + 2, 4);
    lemma_parse_weight_tail_bounds(l, p, 3);
}

/// All elements of an entry, each preceded by optional blanks; ends at the
/// first non-blank position that does not open an element.
pub open spec fn parse_elements(l: Seq<char>, pos: int) -> Option<(int, Seq<Seq<u16>>)>
    decreases l.len() - pos,
    via parse_elements_dec
{
    let p = skip_ws(l, pos);
    if 0 <= p < l.len() && l[p] == '[' {
        match parse_element(l, p) {
            None => None,
            Some((q, el)) => match parse_elements(l, q) {
                None => None,
                Some((e, els)) => Some((e, seq![el] + els)),
            },
        }
    } else {
        Some((p, Seq::empty()))
    }
}

#[via_fn]
proof fn parse_elements_dec(l: Seq<char>, pos: int) {
    let p = skip_ws(l, pos);
    if 0 <= p < l.len() && l[p] == '[' {
        assert(0 <= pos <= l.len()) by {
            if pos < 0 || pos > l.len() {
                assert(skip_ws(l, pos) == pos);
            }
        }
        lemma_skip_ws_bounds(l, pos);
        if parse_element(l, p) is Some {
            lemma_parse_element_bounds(l, p);
        }
    }
}

pub proof fn lemma_parse_elements_bounds(l: Seq<char>, pos: int)
    requires
        0 <= pos <= l.len(),
        parse_elements(l, pos) is Some,
    ensures
        pos <= parse_elements(l, pos)->Some_0.0 <= l.len(),
    decreases l.len() - pos,
{
    let p = skip_ws(l, pos);
    lemma_skip_ws_bounds(l, pos);
    if 0 <= p < l.len() && l[p] == '[' {
        lemma_parse_element_bounds(l, p);
        let (q, el) = parse_element(l, p)->Some_0;
        lemma_parse_elements_bounds(l, q);
    }
}

/// The key of an entry: code points separated by blanks, ending at the first
/// non-blank position that does not start a hex run.
pub open spec fn parse_cps(l: Seq<char>, pos: int) -> Option<(int, Seq<u32>)>
    decreases l.len() - pos,
    via parse_cps_dec
{
    match parse_cp(l, pos) {
        None => None,
        Some((p, v)) => {
            let q = skip_ws(l, p);
            if 0 <= q < l.len() && is_hex_char(l[q]) {
                match parse_cps(l, q) {
                    None => None,
                    Some((e, vs)) => Some((e, seq![v] + vs)),
                }
            } else {
                Some((q, seq![v]))
            }
        },
    }
}

#[via_fn]
proof fn parse_cps_dec(l: Seq<char>, pos: int) {
    if parse_cp(l, pos) is Some {
        let (p, v) = parse_cp(l, pos)->Some_0;
        assert(0 <= pos <= l.len()) by {
            if pos < 0 || pos > l.len() {
                assert(hex_end(l, pos) == pos);
            }
        }
        lemma_parse_hex_bounds(l, pos, 6);
        let q = skip_ws(l, p);
        lemma_skip_ws_bounds(l, p);
    }
}

pub proof fn lemma_parse_cps_bounds(l: Seq<char>, pos: int)
    requires
        0 <= pos <= l.len(),
        parse_cps(l, pos) is Some,
    ensures
        pos <= parse_cps(l, pos)->Some_0.0 <= l.len(),
        parse_cps(l, pos)->Some_0.1.len() >= 1,
    decreases l.len() - pos,
{
    let (p, v) = parse_cp(l, pos)->Some_0;
    lemma_parse_hex_bounds(l, pos, 6);
    let q = skip_ws(l, p);
    lemma_skip_ws_bounds(l, p);
    if 0 <= q < l.len() && is_hex_char(l[q]) {
        lemma_parse_cps_bounds(l, q);
    }
}

/// A line that carries no entry: blank, or a `#` comment, or an `@` directive.
pub open spec fn is_skip_line(l: Seq<char>) -> bool {
    let p = skip_ws(l, 0);
    p >= l.len() || l[p] == '#' || l[p] == '@'
}

pub proof fn lemma_parse_elements_shape(l: Seq<char>, pos: int)
    requires
        0 <= pos <= l.len(),
        parse_elements(l, pos) is Some,
    ensures
        forall|i: int|
            0 <= i < parse_elements(l, pos)->Some_0.1.len() ==> (#[trigger] parse_elements(
                l,
                pos,
            )->Some_0.1[i]).len() == 4,
    decreases l.len() - pos,
{
    let p = skip_ws(l, pos);
    lemma_skip_ws_bounds(l, pos);
    if 0 <= p < l.len() && l[p] == '[' {
        lemma_parse_element_bounds(l, p);
        let (q, el) = parse_element(l, p)->Some_0;
        lemma_parse_elements_shape(l, q);
    }
}

pub proof fn lemma_parse_cps_vals(l: Seq<char>, pos: int)
    requires
        0 <= pos <= l.len(),
        parse_cps(l, pos) is Some,
    ensures
        forall|i: int|
            0 <= i < parse_cps(l, pos)->Some_0.1.len() ==> (#[trigger] parse_cps(
                l,
                pos,
            )->Some_0.1[i]) <= 0x10FFFF,
    decreases l.len() - pos,
{
    let (p, v) = parse_cp(l, pos)->Some_0;
    lemma_parse_hex_bounds(l, pos, 6);
    let q = skip_ws(l, p);
    lemma_skip_ws_bounds(l, p);
    if 0 <= q < l.len() && is_hex_char(l[q]) {
        lemma_parse_cps_vals(l, q);
    }
}

/// A whole entry line: the key, `;`, at least one element, then at most a
/// trailing comment.
pub open spec fn parse_entry(l: Seq<char>) -> Option<RawEntry> {
    match parse_cps(l, skip_ws(l, 0)) {
        None => None,
        Some((p, cps)) => if 0 <= p < l.len() && l[p] == ';' {
            match parse_elements(l, p + 1) {
                None => None,
                Some((q, els)) => if els.len() >= 1 && (q >= l.len() || l[q] == '#') {
                    Some(RawEntry { code_points: cps, elements: els })
                } else {
                    None
                },
            }
        } else {
            None
        },
    }
}

/// A parsed entry has at least one code point, each at most 0x10FFFF, and
/// every element carries exactly the four per-level weights.
pub proof fn lemma_parse_entry_shape(l: Seq<char>)
    requires
        parse_entry(l) is Some,
    ensures
        parse_entry(l)->Some_0.code_points.len() >= 1,
        forall|i: int|
            0 <= i < parse_entry(l)->Some_0.code_points.len() ==> (#[trigger] parse_entry(
                l,
            )->Some_0.code_points[i]) <= 0x10FFFF,
        forall|i: int|
            0 <= i < parse_entry(l)->Some_0.elements.len() ==> (#[trigger] parse_entry(
                l,
            )->Some_0.elements[i]).len() == 4,
{
    let p0 = skip_ws(l, 0);
    lemma_skip_ws_bounds(l, 0);
    lemma_parse_cps_bounds(l, p0);
    lemma_parse_cps_vals(l, p0);
    let (p, cps) = parse_cps(l, p0)->Some_0;
    lemma_parse_elements_shape(l, p + 1);
}

fn ws_char(c: char) -> (r: bool)
    ensures
        r == is_ws_char(c),
{
    c == ' ' || c == '\t' || c == '\r'
}

fn hex_char(c: char) -> (r: bool)
    ensures
        r == is_hex_char(c),
{
    let u = c as u32;
    ('0' as u32 <= u && u <= '9' as u32) || ('a' as u32 <= u && u <= 'f' as u32) || ('A' as u32
        <= u && u <= 'F' as u32)
}

fn hex_val(c: char) -> (r: u32)
    requires
        is_hex_char(c),
    ensures
        r as nat == hex_digit_val(c),
        r < 16,
{
    let u = c as u32;
    if '0' as u32 <= u && u <= '9' as u32 {
        u - '0' as u32
    } else if 'a' as u32 <= u && u <= 'f' as u32 {
        u - 'a' as u32 + 10
    } else {
        u - 'A' as u32 + 10
    }
}

/// Advance past blanks.
fn scan_ws(l: &Vec<char>, pos: usize) -> (r: usize)
    requires
        pos <= l.len(),
    ensures
        r == skip_ws(l@, pos as int),
        pos <= r <= l.len(),
{
    let mut i: usize = pos;
    while i < l.len() && ws_char(l[i])
        invariant
            pos <= i <= l.len(),
            skip_ws(l@, pos as int) == skip_ws(l@, i as int),
        decreases l.len() - i,
    {
        i += 1;
    }
    i
}

proof fn lemma_pow16_vals()
    ensures
        pow16(0) == 1,
        pow16(1) == 16,
        pow16(2) == 256,
        pow16(3) == 4096,
        pow16(4) == 0x10000,
        pow16(5) == 0x100000,
        pow16(6) == 0x1000000,
{
    assert(pow16(0) == 1);
    assert(pow16(1) == 16);
    assert(pow16(2) == 256);
    assert(pow16(3) == 4096);
    assert(pow16(4) == 0x10000);
    assert(pow16(5) == 0x100000);
    assert(pow16(6) == 0x1000000);
}

proof fn lemma_pow16_pos(n: nat)
    ensures
        pow16(n) >= 1,
    decreases n,
{
    if n > 0 {
        lemma_pow16_pos((n - 1) as nat);
    }
}

proof fn lemma_pow16_le(n: nat, m: nat)
    requires
        n <= m,
    ensures
        pow16(n) <= pow16(m),
        pow16(n) >= 1,
    decreases m - n,
{
    lemma_pow16_pos(n);
    if n < m {
        lemma_pow16_le(n + 1, m);
        assert(pow16(n + 1) == 16 * pow16(n));
    }
}

/// Every character of a hex run is a hex digit.
proof fn lemma_hex_end_hex(l: Seq<char>, pos: int)
    requires
        0 <= pos <= l.len(),
    ensures
        forall|j: int| pos <= j < hex_end(l, pos) ==> is_hex_char(#[trigger] l[j]),
    decreases l.len() - pos,
{
    if pos < l.len() && is_hex_char(l[pos]) {
        lemma_hex_end_hex(l, pos + 1);
        lemma_hex_end_bounds(l, pos + 1);
    }
}

/// Scan a hex run of one to `max_digits` digits and its value.
fn scan_hex(l: &Vec<char>, pos: usize, max_digits: usize) -> (r: Option<(usize, u32)>)
    requires
        pos <= l.len(),
        max_digits <= 6,
    ensures
        r is None <==> parse_hex(l@, pos as int, max_digits as int) is None,
        r matches Some(rv) ==> parse_hex(l@, pos as int, max_digits as int) == Some(
            (rv.0 as int, rv.1 as nat),
        ),
        r matches Some(rv) ==> pos < rv.0 <= l.len(),
{
    let mut i: usize = pos;
    while i < l.len() && hex_char(l[i])
        invariant
            pos <= i <= l.len(),
            hex_end(l@, pos as int) == hex_end(l@, i as int),
            forall|j: int| pos <= j < i ==> is_hex_char(#[trigger] l@[j]),
        decreases l.len() - i,
    {
        i += 1;
    }
    assert(hex_end(l@, pos as int) == i);
    if i == pos || i - pos > max_digits {
        return None;
    }
    let mut acc: u32 = 0;
    let mut j: usize = pos;
    while j < i
        invariant
            pos <= j <= i <= l.len(),
            i - pos <= 6,
            forall|jj: int| pos <= jj < i ==> is_hex_char(#[trigger] l@[jj]),
            acc as nat == hex_seq_val(l@.subrange(pos as int, j as int)),
        decreases i - j,
    {
        proof {
            lemma_hex_seq_val_bound(l@.subrange(pos as int, j as int));
            lemma_pow16_le((j - pos) as nat, 6);
            lemma_pow16_vals();
            assert(l@.subrange(pos as int, j + 1).drop_last() =~= l@.subrange(
                pos as int,
                j as int,
            ));
        }
        let d = hex_val(l[j]);
        acc = acc * 16 + d;
        j += 1;
    }
    Some((i, acc))
}

/// Scan a code point of the key.
fn scan_cp(l: &Vec<char>, pos: usize) -> (r: Option<(usize, u32)>)
    requires
        pos <= l.len(),
    ensures
        r is None <==> parse_cp(l@, pos as int) is None,
        r matches Some(rv) ==> parse_cp(l@, pos as int) == Some((rv.0 as int, rv.1)),
        r matches Some(rv) ==> pos < rv.0 <= l.len(),
{
    match scan_hex(l, pos, 6) {
        None => None,
        Some((e, v)) => if v <= 0x10FFFF {
            Some((e, v))
        } else {
            None
        },
    }
}

/// Scan one weight of an element.
fn scan_weight(l: &Vec<char>, pos: usize) -> (r: Option<(usize, u16)>)
    requires
        pos <= l.len(),
    ensures
        r is None <==> parse_weight(l@, pos as int) is None,
        r matches Some(rv) ==> parse_weight(l@, pos as int) == Some((rv.0 as int, rv.1)),
        r matches Some(rv) ==> pos < rv.0 <= l.len(),
{
    match scan_hex(l, pos, 4) {
        None => None,
        Some((e, v)) => {
            proof {
                lemma_hex_end_hex(l@, pos as int);
                lemma_hex_seq_val_bound(l@.subrange(pos as int, e as int));
                lemma_pow16_le((e - pos) as nat, 4);
                lemma_pow16_vals();
            }
            Some((e, v as u16))
        },
    }
}

/// Scan the weights after the first inside an element, then `]`.
fn scan_weight_tail(l: &Vec<char>, pos: usize, k: usize) -> (r: Option<(usize, Vec<u16>)>)
    requires
        pos <= l.len(),
    ensures
        r is None <==> parse_weight_tail(l@, pos as int, k as nat) is None,
        r matches Some(rv) ==> parse_weight_tail(l@, pos as int, k as nat) == Some(
            (rv.0 as int, rv.1@),
        ),
        r matches Some(rv) ==> pos < rv.0 <= l.len(),
    decreases k,
{
    if pos < l.len() && l[pos] == ']' {
        let v: Vec<u16> = Vec::new();
        assert(v@ =~= Seq::<u16>::empty());
        Some((pos + 1, v))
    } else if pos < l.len() && l[pos] == '.' && k > 0 {
        match scan_weight(l, pos + 1) {
            None => None,
            Some((p, w)) => match scan_weight_tail(l, p, k - 1) {
                None => None,
                Some((e, mut ws)) => {
                    let ghost tail = ws@;
                    let mut out: Vec<u16> = Vec::new();
                    out.push(w);
                    out.append(&mut ws);
                    assert(out@ =~= seq![w] + tail);
                    Some((e, out))
                },
            },
        }
    } else {
        None
    }
}

/// Scan one element.
fn scan_element(l: &Vec<char>, pos: usize) -> (r: Option<(usize, Vec<u16>)>)
    requires
        pos <= l.len(),
    ensures
        r is None <==> parse_element(l@, pos as int) is None,
        r matches Some(rv) ==> parse_element(l@, pos as int) == Some((rv.0 as int, rv.1@)),
        r matches Some(rv) ==> pos < rv.0 <= l.len() && rv.1@.len() == 4,
{
    if pos < l.len() && pos + 1 < l.len() && l[pos] == '[' && (l[pos + 1] == '.' || l[pos + 1]
        == '*') {
        match scan_weight(l, pos + 2) {
            None => None,
            Some((p, w1)) => match scan_weight_tail(l, p, 3) {
                None => None,
                Some((e, mut ws)) => {
                    let ghost tail = ws@;
                    proof {
                        lemma_parse_weight_tail_bounds(l@, p as int, 3);
                    }
                    let mut out: Vec<u16> = Vec::new();
                    out.push(w1);
                    out.append(&mut ws);
                    assert(out@ =~= seq![w1] + tail);
                    let ghost base = out@;
                    while out.len() < 4
                        invariant
                            out@.len() <= 4,
                            pad4(base) == pad4(out@),
                        decreases 4 - out.len(),
                    {
                        proof {
                            assert(pad4(out@.push(0u16)) =~= pad4(out@));
                        }
                        out.push(0u16);
                    }
                    assert(pad4(base) =~= out@);
                    Some((e, out))
                },
            },
        }
    } else {
        None
    }
}

/// Scan all elements of an entry.
fn scan_elements(l: &Vec<char>, pos: usize) -> (r: Option<(usize, Vec<Vec<u16>>)>)
    requires
        pos <= l.len(),
    ensures
        r is None <==> parse_elements(l@, pos as int) is None,
        r matches Some(rv) ==> parse_elements(l@, pos as int) == Some(
            (rv.0 as int, rv.1@.map_values(|v: Vec<u16>| v@)),
        ),
        r matches Some(rv) ==> pos <= rv.0 <= l.len(),
    decreases l.len() - pos,
{
    let p = scan_ws(l, pos);
    if p < l.len() && l[p] == '[' {
        match scan_element(l, p) {
            None => None,
            Some((q, el)) => match scan_elements(l, q) {
                None => None,
                Some((e, mut els)) => {
                    let ghost tail = els@;
                    let mut out: Vec<Vec<u16>> = Vec::new();
                    out.push(el);
                    out.append(&mut els);
                    assert(out@.map_values(|v: Vec<u16>| v@) =~= seq![el@] + tail.map_values(
                        |v: Vec<u16>| v@,
                    ));
                    Some((e, out))
                },
            },
        }
    } else {
        let out: Vec<Vec<u16>> = Vec::new();
        assert(out@.map_values(|v: Vec<u16>| v@) =~= Seq::<Seq<u16>>::empty());
        Some((p, out))
    }
}

/// Scan the key of an entry.
fn scan_cps(l: &Vec<char>, pos: usize) -> (r: Option<(usize, Vec<u32>)>)
    requires
        pos <= l.len(),
    ensures
        r is None <==> parse_cps(l@, pos as int) is None,
        r matches Some(rv) ==> parse_cps(l@, pos as int) == Some((rv.0 as int, rv.1@)),
        r matches Some(rv) ==> pos < rv.0 <= l.len(),
    decreases l.len() - pos,
{
    match scan_cp(l, pos) {
        None => None,
        Some((p, v)) => {
            let q = scan_ws(l, p);
            if q < l.len() && hex_char(l[q]) {
                match scan_cps(l, q) {
                    None => None,
                    Some((e, mut vs)) => {
                        let ghost tail = vs@;
                        let mut out: Vec<u32> = Vec::new();
                        out.push(v);
                        out.append(&mut vs);
                        assert(out@ =~= seq![v] + tail);
                        Some((e, out))
                    },
                }
            } else {
                let mut out: Vec<u32> = Vec::new();
                out.push(v);
                assert(out@ =~= seq![v]);
                Some((q, out))
            }
        },
    }
}

/// Whether a line carries no entry.
pub fn skip_line(l: &Vec<char>) -> (r: bool)
    ensures
        r == is_skip_line(l@),
{
    let p = scan_ws(l, 0);
    p == l.len() || l[p] == '#' || l[p] == '@'
}

/// Scan a whole entry line; the elements of the result each hold the four
/// per-level weights.
pub fn scan_entry(l: &Vec<char>) -> (r: Option<(Vec<u32>, Vec<Vec<u16>>)>)
    ensures
        r is None <==> parse_entry(l@) is None,
        r matches Some(rv) ==> parse_entry(l@) == Some(
            RawEntry {
                code_points: rv.0@,
                elements: rv.1@.map_values(|v: Vec<u16>| v@),
            },
        ),
        r matches Some(rv) ==> rv.0@.len() >= 1 && rv.1@.len() >= 1,
        r matches Some(rv) ==> forall|i: int| 0 <= i < rv.0@.len() ==> rv.0@[i] <= 0x10FFFF,
        r matches Some(rv) ==> forall|i: int|
            0 <= i < rv.1@.len() ==> (#[trigger] rv.1@[i])@.len() == 4,
{
    let start = scan_ws(l, 0);
    match scan_cps(l, start) {
        None => None,
        Some((p, cps)) => {
            if p < l.len() && l[p] == ';' {
                match scan_elements(l, p + 1) {
                    None => None,
                    Some((q, els)) => {
                        if els.len() >= 1 && (q == l.len() || l[q] == '#') {
                            proof {
                                lemma_parse_cps_vals(l@, start as int);
                                lemma_parse_elements_shape(l@, p + 1);
                                assert(forall|i: int|
                                    0 <= i < els@.len() ==> (#[trigger] els@[i])@.len() == 4)
                                    by {
                                    assert(forall|i: int|
                                        0 <= i < els@.len() ==> els@.map_values(
                                            |v: Vec<u16>| v@,
                                        )[i] == (#[trigger] els@[i])@);
                                }
                            }
                            Some((cps, els))
                        } else {
                            None
                        }
                    },
                }
            } else {
                None
            }
        },
    }
}

/// The lines of a text, split on `'\n'`; a text without one is a single
/// line, and a trailing `'\n'` opens a final empty line.
pub open spec fn spec_lines(t: Seq<char>) -> Seq<Seq<char>>
    decreases t.len(),
{
    if t.len() == 0 {
        seq![Seq::<char>::empty()]
    } else {
        let prev = spec_lines(t.drop_last());
        if t.last() == '\n' {
            prev.push(Seq::empty())
        } else {
            prev.update(prev.len() - 1, prev.last().push(t.last()))
        }
    }
}

/// The characters of a string, in order.
pub fn str_chars(s: &str) -> (r: Vec<char>)
    ensures
        r@ == s@,
{
    let n = s.unicode_len();
    let mut v: Vec<char> = Vec::new();
    let mut i: usize = 0;
    while i < n
        invariant
            i <= n,
            n == s@.len(),
            v@ == s@.take(i as int),
        decreases n - i,
    {
        let c = s.get_char(i);
        v.push(c);
        proof {
            assert(v@ =~= s@.take(i + 1));
        }
        i += 1;
    }
    proof {
        assert(s@.take(n as int) =~= s@);
    }
    v
}

/// Split a text into its lines.
pub fn split_lines(chars: &Vec<char>) -> (r: Vec<Vec<char>>)
    ensures
        r@.map_values(|l: Vec<char>| l@) == spec_lines(chars@),
        r@.len() >= 1,
{
    let mut acc: Vec<Vec<char>> = Vec::new();
    let mut cur: Vec<char> = Vec::new();
    let mut i: usize = 0;
    proof {
        assert(acc@.map_values(|l: Vec<char>| l@).push(cur@) =~= spec_lines(
            chars@.take(0),
        ));
    }
    while i < chars.len()
        invariant
            i <= chars.len(),
            spec_lines(chars@.take(i as int)) == acc@.map_values(|l: Vec<char>| l@).push(cur@),
        decreases chars.len() - i,
    {
        let ghost pre = chars@.take(i as int);
        let ghost accv = acc@.map_values(|l: Vec<char>| l@);
        proof {
            assert(chars@.take(i + 1).drop_last() =~= pre);
            assert(chars@.take(i + 1).last() == chars@[i as int]);
        }
        let c = chars[i];
        if c == '\n' {
            acc.push(cur);
            cur = Vec::new();
            proof {
                assert(acc@.map_values(|l: Vec<char>| l@).push(cur@) =~= spec_lines(
                    chars@.take(i + 1),
                ));
            }
        } else {
            cur.push(c);
            proof {
                assert(spec_lines(chars@.take(i + 1)) == accv.push(cur@.drop_last()).update(
                    accv.len() as int,
                    cur@,
                ));
                assert(acc@.map_values(|l: Vec<char>| l@).push(cur@) =~= accv.push(
                    cur@.drop_last(),
                ).update(accv.len() as int, cur@));
            }
        }
        i += 1;
    }
    proof {
        assert(chars@.take(chars@.len() as int) =~= chars@);
    }
    acc.push(cur);
    proof {
        assert(acc@.map_values(|l: Vec<char>| l@) =~= spec_lines(chars@));
    }
    acc
}

} // verus!
