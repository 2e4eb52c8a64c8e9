//! Locale-independent sort keys for Unicode text, following the weight-lookup
//! and key-construction steps of the Unicode Collation Algorithm.

use unicode_normalization::UnicodeNormalization;
use vstd::prelude::*;

pub mod multistage;
pub mod parse;
pub mod table;

use crate::table::{resolve_model, TableModel, WeightEntry};

pub use crate::table::CollationTable;

verus! {

/// The weight records, in table and text order, that a decomposed character
/// sequence resolves to; characters the table does not resolve contribute
/// nothing.
pub open spec fn resolved_records(m: TableModel, chars: Seq<char>) -> Seq<Seq<u16>>
    decreases chars.len(),
{
    if chars.len() == 0 {
        Seq::empty()
    } else {
        resolved_records(m, chars.drop_last()) + resolve_model(m, chars.last() as u32)
    }
}

/// The non-zero weights of the records at one level, in record order: a 0
/// weight is omitted entirely, never emitted.
pub open spec fn level_weights(ws: Seq<Seq<u16>>, level: int) -> Seq<u16>
    decreases ws.len(),
{
    if ws.len() == 0 {
        Seq::empty()
    } else {
        level_weights(ws.drop_last(), level) + (if ws.last()[level] != 0 {
            seq![ws.last()[level]]
        } else {
            Seq::<u16>::empty()
        })
    }
}

/// The first `k` level segments, each closed by a single 0 separator.
pub open spec fn levels_prefix(ws: Seq<Seq<u16>>, k: int) -> Seq<u16>
    decreases k,
{
    if k <= 0 {
        Seq::empty()
    } else {
        levels_prefix(ws, k - 1) + level_weights(ws, k - 1) + seq![0u16]
    }
}

/// The sequence with every trailing 0 removed.
pub open spec fn strip_trailing_zeros(s: Seq<u16>) -> Seq<u16>
    decreases s.len(),
{
    if s.len() > 0 && s.last() == 0 {
        strip_trailing_zeros(s.drop_last())
    } else {
        s
    }
}

/// The sort key a decomposed character sequence earns under a table model:
/// all four level segments in order, trailing separators stripped.
pub open spec fn sort_key_of(m: TableModel, chars: Seq<char>) -> Seq<u16> {
    strip_trailing_zeros(levels_prefix(resolved_records(m, chars), 4))
}

/// What canonical decomposition (NFD) turns a character sequence into; the
/// result depends on the characters alone.
pub uninterp spec fn nfd_of(s: Seq<char>) -> Seq<char>;

/// An owned multi-level sort key: a flat sequence of 16-bit collation weights
/// in which 0 serves as the level separator. Lexicographic order over the
/// weight sequence reproduces multi-level collation order.
pub struct SortKey(pub(crate) Vec<u16>);

impl View for SortKey {
    type V = Seq<u16>;

    closed spec fn view(&self) -> Seq<u16> {
        self.0@
    }
}

impl SortKey {
    /// The weight sequence of this key.
    pub fn weights(&self) -> (r: &Vec<u16>)
        ensures
            r@ == self@,
    {
        &self.0
    }

    /// The canonical textual form of the key: weights as four uppercase hex
    /// digits, level boundaries marked `|`, single spaces between, the final
    /// boundary included.
    #[verifier::loop_isolation(false)]
    pub fn render(&self) -> (r: String)
        ensures
            r@ == render_key(self@),
    {
        let mut out = String::new();
        push_char(&mut out, '[');
        let mut i: usize = 0;
        proof {
            assert(render_weights(self@.take(0)) =~= Seq::<char>::empty());
            assert(out@ =~= seq!['['] + render_weights(self@.take(0)));
        }
        while i < self.0.len()
            invariant
                i <= self.0.len(),
                out@ == seq!['['] + render_weights(self@.take(i as int)),
            decreases self.0.len() - i,
        {
            proof {
                assert(self@.take(i + 1).drop_last() =~= self@.take(i as int));
                assert(self@.take(i + 1).last() == self@[i as int]);
            }
            let w = self.0[i];
            if w == 0 {
                push_char(&mut out, '|');
                push_char(&mut out, ' ');
            } else {
                push_char(&mut out, hex_char_of((w / 4096) % 16));
                push_char(&mut out, hex_char_of((w / 256) % 16));
                push_char(&mut out, hex_char_of((w / 16) % 16));
                push_char(&mut out, hex_char_of(w % 16));
                push_char(&mut out, ' ');
            }
            proof {
                assert(out@ =~= seq!['['] + render_weights(self@.take(i + 1)));
            }
            i += 1;
        }
        proof {
            assert(self@.take(self@.len() as int) =~= self@);
        }
        push_char(&mut out, '|');
        push_char(&mut out, ']');
        proof {
            assert(out@ =~= render_key(self@));
        }
        out
    }

    /// Whether `self` orders strictly before `other`, lexicographically by
    /// weight sequence.
    pub fn less_than(&self, other: &SortKey) -> (r: bool)
        ensures
            r == lex_less(self@, other@),
    {
        let mut i: usize = 0;
        proof {
            assert(self@.skip(0) =~= self@);
            assert(other@.skip(0) =~= other@);
        }
        loop
            invariant
                i <= self.0.len(),
                i <= other.0.len(),
                lex_less(self@, other@) == lex_less(
                    self@.skip(i as int),
                    other@.skip(i as int),
                ),
            decreases self.0.len() - i,
        {
            let ghost a = self@.skip(i as int);
            let ghost b = other@.skip(i as int);
            if i == self.0.len() {
                assert(a.len() == 0);
                return i < other.0.len();
            }
            if i == other.0.len() {
                assert(b.len() == 0);
                return false;
            }
            assert(a[0] == self@[i as int] && b[0] == other@[i as int]);
            if self.0[i] != other.0[i] {
                return self.0[i] < other.0[i];
            }
            assert(a.drop_first() =~= self@.skip(i + 1));
            assert(b.drop_first() =~= other@.skip(i + 1));
            i += 1;
        }
    }
}

/// Relies on unicode_normalization's `UnicodeNormalization::nfd` on `&str`:
/// an iterator over the text in Unicode Normalization Form D (canonical
/// decomposition), a function of the input characters alone.
#[verifier::external_body]
fn nfd_chars(text: &str) -> (r: Vec<char>)
    ensures
        r@ == nfd_of(text@),
{
    text.nfd().collect()
}

/// Build the sort key for an already-decomposed character sequence: for
/// each collation level in turn, the non-zero level weights of every
/// resolved record in order, one 0 closing each level, and all trailing
/// zeros stripped at the end.
#[verifier::loop_isolation(false)]
pub fn collate_decomposed(chars: &Vec<char>, table: &CollationTable) -> (r: SortKey)
    requires
        table.wf(),
    ensures
        r@ == sort_key_of(table.model(), chars@),
{
    let ghost m = table.model();
    let mut weights: Vec<WeightEntry> = Vec::new();
    let mut i: usize = 0;
    while i < chars.len()
        invariant
            i <= chars.len(),
            weights@.map_values(|w: WeightEntry| w.weights@) == resolved_records(
                m,
                chars@.take(i as int),
            ),
        decreases chars.len() - i,
    {
        let rs = table.resolve(chars[i]);
        let ghost rsv = rs@.map_values(|w: WeightEntry| w.weights@);
        let ghost pre = weights@.map_values(|w: WeightEntry| w.weights@);
        let mut j: usize = 0;
        proof {
            assert(pre + rsv.take(0) =~= pre);
        }
        while j < rs.len()
            invariant
                j <= rs.len(),
                weights@.map_values(|w: WeightEntry| w.weights@) == pre + rsv.take(j as int),
            decreases rs.len() - j,
        {
            weights.push(rs[j]);
            proof {
                assert(rsv[j as int] == rs@[j as int].weights@);
                assert(weights@.map_values(|w: WeightEntry| w.weights@) =~= (pre + rsv.take(
                    j as int,
                )).push(rsv[j as int]));
                assert((pre + rsv.take(j as int)).push(rsv[j as int]) =~= pre + rsv.take(
                    j + 1,
                ));
            }
            j += 1;
        }
        proof {
            assert(rsv.take(rs@.len() as int) =~= rsv);
            assert(chars@.take(i + 1).drop_last() =~= chars@.take(i as int));
            assert(chars@.take(i + 1).last() == chars@[i as int]);
        }
        i += 1;
    }
    proof {
        assert(chars@.take(chars@.len() as int) =~= chars@);
    }
    let ghost ws = resolved_records(m, chars@);
    let mut sort_key: Vec<u16> = Vec::with_capacity(weights.len());
    let mut level: usize = 0;
    while level < 4
        invariant
            level <= 4,
            sort_key@ == levels_prefix(ws, level as int),
        decreases 4 - level,
    {
        let ghost seg0 = sort_key@;
        let mut j: usize = 0;
        proof {
            assert(level_weights(ws.take(0), level as int) =~= Seq::<u16>::empty());
            assert(seg0 + level_weights(ws.take(0), level as int) =~= seg0);
        }
        while j < weights.len()
            invariant
                j <= weights.len(),
                sort_key@ == seg0 + level_weights(ws.take(j as int), level as int),
            decreases weights.len() - j,
        {
            proof {
                assert(ws.take(j + 1).drop_last() =~= ws.take(j as int));
                assert(ws.take(j + 1).last() == ws[j as int]);
                assert(ws[j as int] == weights@[j as int].weights@);
            }
            let w = weights[j].weights[level];
            if w != 0 {
                sort_key.push(w);
                proof {
                    assert(sort_key@ =~= seg0 + level_weights(ws.take(j + 1), level as int));
                }
            } else {
                proof {
                    assert(sort_key@ =~= seg0 + level_weights(ws.take(j + 1), level as int));
                }
            }
            j += 1;
        }
        proof {
            assert(ws.take(ws.len() as int) =~= ws);
        }
        sort_key.push(0);
        proof {
            assert(sort_key@ =~= levels_prefix(ws, level as int) + level_weights(
                ws,
                level as int,
            ) + seq![0u16]);
        }
        level += 1;
    }
    while sort_key.len() > 0 && sort_key[sort_key.len() - 1] == 0
        invariant
            strip_trailing_zeros(sort_key@) == strip_trailing_zeros(levels_prefix(ws, 4)),
        decreases sort_key.len(),
    {
        sort_key.pop();
    }
    proof {
        assert(strip_trailing_zeros(sort_key@) == sort_key@);
    }
    SortKey(sort_key)
}

/// The sort key of a text under a table: the text is canonically decomposed
/// by the external normalizer, each character resolved against the table,
/// and the multi-level key built from the resolved records.
pub fn collate(text: &str, table: &CollationTable) -> (r: SortKey)
    requires
        table.wf(),
    ensures
        r@ == sort_key_of(table.model(), nfd_of(text@)),
{
    let chars = nfd_chars(text);
    collate_decomposed(&chars, table)
}

/// Each record carries exactly the four per-level weights.
pub open spec fn wf_records(ws: Seq<Seq<u16>>) -> bool {
    forall|i: int| 0 <= i < ws.len() ==> (#[trigger] ws[i]).len() == 4
}

/// A record is level-closed when a weight present at some level is also
/// present at every earlier level.
pub open spec fn level_closed(w: Seq<u16>) -> bool {
    forall|a: int, b: int|
        #![trigger w[a], w[b]]
        0 <= a < b < w.len() ==> (w[b] != 0 ==> w[a] != 0)
}

/// No two adjacent weights of the sequence are both 0.
pub open spec fn no_adjacent_zeros(s: Seq<u16>) -> bool {
    forall|i: int| 0 <= i && i + 1 < s.len() ==> !((#[trigger] s[i]) == 0 && s[i + 1] == 0)
}

proof fn lemma_level_no_zero(ws: Seq<Seq<u16>>, l: int)
    ensures
        forall|i: int|
            0 <= i < level_weights(ws, l).len() ==> (#[trigger] level_weights(ws, l)[i]) != 0,
    decreases ws.len(),
{
    if ws.len() > 0 {
        lemma_level_no_zero(ws.drop_last(), l);
        let pre = level_weights(ws.drop_last(), l);
        assert forall|i: int| 0 <= i < level_weights(ws, l).len() implies (
        #[trigger] level_weights(ws, l)[i]) != 0 by {
            if i < pre.len() {
                assert(level_weights(ws, l)[i] == pre[i]);
            } else {
                assert(level_weights(ws, l).len() > pre.len());
                assert(ws.last()[l] != 0);
                assert(level_weights(ws, l)[i] == ws.last()[l]);
            }
        }
    }
}

proof fn lemma_level_empty_iff(ws: Seq<Seq<u16>>, l: int)
    ensures
        level_weights(ws, l).len() == 0 <==> (forall|i: int|
            0 <= i < ws.len() ==> (#[trigger] ws[i])[l] == 0),
    decreases ws.len(),
{
    if ws.len() > 0 {
        lemma_level_empty_iff(ws.drop_last(), l);
        assert(forall|i: int|
            0 <= i < ws.len() - 1 ==> (#[trigger] ws[i]) == ws.drop_last()[i]);
    }
}

proof fn lemma_closed_empty_up(ws: Seq<Seq<u16>>, a: int, b: int)
    requires
        0 <= a < b < 4,
        wf_records(ws),
        forall|i: int| 0 <= i < ws.len() ==> level_closed(#[trigger] ws[i]),
        level_weights(ws, a).len() == 0,
    ensures
        level_weights(ws, b).len() == 0,
{
    lemma_level_empty_iff(ws, a);
    lemma_level_empty_iff(ws, b);
    assert forall|i: int| 0 <= i < ws.len() implies (#[trigger] ws[i])[b] == 0 by {
        assert(ws[i][a] == 0);
        assert(ws[i].len() == 4);
        if ws[i][b] != 0 {
            assert(ws[i][a] != 0);
        }
    }
}

proof fn lemma_strip_push_zero(s: Seq<u16>)
    ensures
        strip_trailing_zeros(s.push(0u16)) == strip_trailing_zeros(s),
{
    assert(s.push(0u16).drop_last() =~= s);
}

proof fn lemma_strip_prefix(ws: Seq<Seq<u16>>, k: int)
    requires
        0 <= k,
        level_weights(ws, k).len() == 0,
    ensures
        strip_trailing_zeros(levels_prefix(ws, k + 1)) == strip_trailing_zeros(
            levels_prefix(ws, k),
        ),
{
    assert(levels_prefix(ws, k + 1) =~= levels_prefix(ws, k).push(0u16));
    lemma_strip_push_zero(levels_prefix(ws, k));
}

/// The level segments up to `k` without the trailing separator.
spec fn nonsep(ws: Seq<Seq<u16>>, k: int) -> Seq<u16> {
    if k <= 0 {
        Seq::empty()
    } else {
        levels_prefix(ws, k - 1) + level_weights(ws, k - 1)
    }
}

proof fn lemma_nonsep_good(ws: Seq<Seq<u16>>, k: int)
    requires
        0 <= k <= 4,
        k >= 1 ==> level_weights(ws, 0).len() > 0,
        k >= 2 ==> level_weights(ws, 1).len() > 0,
        k >= 3 ==> level_weights(ws, 2).len() > 0,
        k >= 4 ==> level_weights(ws, 3).len() > 0,
    ensures
        no_adjacent_zeros(nonsep(ws, k)),
        k > 0 ==> nonsep(ws, k).len() > 0 && nonsep(ws, k).last() != 0,
    decreases k,
{
    if k > 0 {
        lemma_nonsep_good(ws, k - 1);
        lemma_level_no_zero(ws, k - 1);
        let p = levels_prefix(ws, k - 1);
        let lw = level_weights(ws, k - 1);
        let s = nonsep(ws, k);
        assert(lw.len() > 0);
        if k - 1 >= 1 {
            assert(p =~= nonsep(ws, k - 1).push(0u16));
        } else {
            assert(p =~= Seq::<u16>::empty());
        }
        assert forall|i: int| 0 <= i && i + 1 < s.len() implies !((#[trigger] s[i]) == 0 && s[i
            + 1] == 0) by {
            if i + 1 < p.len() {
                if i + 1 == p.len() - 1 {
                    assert(s[i] == nonsep(ws, k - 1).last());
                } else {
                    assert(s[i] == nonsep(ws, k - 1)[i]);
                    assert(s[i + 1] == nonsep(ws, k - 1)[i + 1]);
                }
            } else if i + 1 == p.len() {
                assert(s[i + 1] == lw[0]);
            } else {
                assert(s[i + 1] == lw[i + 1 - p.len()]);
            }
        }
        assert(s.last() == lw.last());
    }
}

/// Under a valid model every resolved record carries the four per-level
/// weights.
pub proof fn lemma_resolved_wf(m: TableModel, chars: Seq<char>)
    requires
        crate::table::model_valid(m),
    ensures
        wf_records(resolved_records(m, chars)),
    decreases chars.len(),
{
    if chars.len() > 0 {
        lemma_resolved_wf(m, chars.drop_last());
        let pre = resolved_records(m, chars.drop_last());
        let tail = resolve_model(m, chars.last() as u32);
        assert forall|i: int| 0 <= i < resolved_records(m, chars).len() implies (
        #[trigger] resolved_records(m, chars)[i]).len() == 4 by {
            if i < pre.len() {
                assert(resolved_records(m, chars)[i] == pre[i]);
            } else {
                let cp = chars.last() as u32;
                assert(m.spans.dom().contains(cp));
                let (start, len) = m.spans[cp];
                assert(resolved_records(m, chars)[i] == tail[i - pre.len()]);
                assert(tail[i - pre.len()] == m.weights[start + (i - pre.len())]);
            }
        }
    }
}

/// Separator invariant: over level-closed records the sort key never holds
/// two adjacent 0 values and never ends in 0. (A record assigning a level a
/// weight while skipping an earlier level would break the invariant; such
/// records are excluded.)
pub proof fn lemma_separator_invariant(m: TableModel, chars: Seq<char>)
    requires
        wf_records(resolved_records(m, chars)),
        forall|i: int|
            0 <= i < resolved_records(m, chars).len() ==> level_closed(
                #[trigger] resolved_records(m, chars)[i],
            ),
    ensures
        no_adjacent_zeros(sort_key_of(m, chars)),
        sort_key_of(m, chars).len() > 0 ==> sort_key_of(m, chars).last() != 0,
{
    let ws = resolved_records(m, chars);
    let k: int = if level_weights(ws, 0).len() == 0 {
        0
    } else if level_weights(ws, 1).len() == 0 {
        1
    } else if level_weights(ws, 2).len() == 0 {
        2
    } else if level_weights(ws, 3).len() == 0 {
        3
    } else {
        4
    };
    if k <= 3 {
        assert(level_weights(ws, 3).len() == 0) by {
            if k < 3 {
                lemma_closed_empty_up(ws, k, 3);
            }
        }
        lemma_strip_prefix(ws, 3);
    }
    if k <= 2 {
        assert(level_weights(ws, 2).len() == 0) by {
            if k < 2 {
                lemma_closed_empty_up(ws, k, 2);
            }
        }
        lemma_strip_prefix(ws, 2);
    }
    if k <= 1 {
        assert(level_weights(ws, 1).len() == 0) by {
            if k < 1 {
                lemma_closed_empty_up(ws, k, 1);
            }
        }
        lemma_strip_prefix(ws, 1);
    }
    if k == 0 {
        lemma_strip_prefix(ws, 0);
    }
    assert(strip_trailing_zeros(levels_prefix(ws, 4)) == strip_trailing_zeros(
        levels_prefix(ws, k),
    ));
    lemma_nonsep_good(ws, k);
    if k == 0 {
        assert(levels_prefix(ws, 0) =~= Seq::<u16>::empty());
    } else {
        assert(levels_prefix(ws, k) =~= nonsep(ws, k).push(0u16));
        lemma_strip_push_zero(nonsep(ws, k));
        assert(strip_trailing_zeros(nonsep(ws, k)) == nonsep(ws, k));
    }
}

/// Empty-weight omission: a record with a 0 at level `l` contributes
/// nothing to that level's segment (appending it leaves the segment
/// unchanged), and a 0 weight is never an element of a level segment.
pub proof fn lemma_empty_weight_omitted(ws: Seq<Seq<u16>>, w: Seq<u16>, l: int)
    requires
        0 <= l < w.len(),
        w[l] == 0,
    ensures
        level_weights(ws.push(w), l) == level_weights(ws, l),
        forall|i: int|
            0 <= i < level_weights(ws, l).len() ==> (#[trigger] level_weights(ws, l)[i]) != 0,
{
    assert(ws.push(w).drop_last() =~= ws);
    assert(level_weights(ws, l) + Seq::<u16>::empty() =~= level_weights(ws, l));
    lemma_level_no_zero(ws, l);
}

proof fn lemma_resolved_empty(m: TableModel, chars: Seq<char>)
    requires
        forall|i: int|
            0 <= i < chars.len() ==> !m.spans.dom().contains((#[trigger] chars[i]) as u32),
    ensures
        resolved_records(m, chars).len() == 0,
    decreases chars.len(),
{
    if chars.len() > 0 {
        lemma_resolved_empty(m, chars.drop_last());
    }
}

/// Unassigned code points: when no character of the decomposed input is
/// keyed in the table, the sort key is empty.
pub proof fn lemma_unassigned_empty_key(m: TableModel, chars: Seq<char>)
    requires
        forall|i: int|
            0 <= i < chars.len() ==> !m.spans.dom().contains((#[trigger] chars[i]) as u32),
    ensures
        sort_key_of(m, chars) == Seq::<u16>::empty(),
{
    lemma_resolved_empty(m, chars);
    let ws = resolved_records(m, chars);
    assert(levels_prefix(ws, 0) =~= Seq::<u16>::empty());
    assert(level_weights(ws, 0) =~= Seq::<u16>::empty());
    assert(level_weights(ws, 1) =~= Seq::<u16>::empty());
    assert(level_weights(ws, 2) =~= Seq::<u16>::empty());
    assert(level_weights(ws, 3) =~= Seq::<u16>::empty());
    assert(levels_prefix(ws, 1) =~= levels_prefix(ws, 0).push(0u16));
    assert(levels_prefix(ws, 2) =~= levels_prefix(ws, 1).push(0u16));
    assert(levels_prefix(ws, 3) =~= levels_prefix(ws, 2).push(0u16));
    assert(levels_prefix(ws, 4) =~= levels_prefix(ws, 3).push(0u16));
    lemma_strip_push_zero(levels_prefix(ws, 3));
    lemma_strip_push_zero(levels_prefix(ws, 2));
    lemma_strip_push_zero(levels_prefix(ws, 1));
    lemma_strip_push_zero(levels_prefix(ws, 0));
    assert(strip_trailing_zeros(levels_prefix(ws, 4)) == strip_trailing_zeros(
        levels_prefix(ws, 3),
    ));
    assert(strip_trailing_zeros(levels_prefix(ws, 0)) == Seq::<u16>::empty());
}

/// Determinism: the sort key is a function of the table model and the text
/// alone, so repeated calls on one input return equal keys.
pub proof fn lemma_collate_deterministic(
    m: TableModel,
    text: Seq<char>,
    k1: Seq<u16>,
    k2: Seq<u16>,
)
    requires
        k1 == sort_key_of(m, nfd_of(text)),
        k2 == sort_key_of(m, nfd_of(text)),
    ensures
        k1 == k2,
{
}

/// The character for one hex digit, upper case.
pub open spec fn hex_digit_char(d: nat) -> char {
    if d < 10 {
        ((d + 48) as u8) as char
    } else {
        ((d + 55) as u8) as char
    }
}

/// One weight in the canonical rendering: four uppercase hex digits and a
/// space, or `| ` for the 0 separator.
pub open spec fn render_weight(w: u16) -> Seq<char> {
    if w == 0 {
        seq!['|', ' ']
    } else {
        seq![
            hex_digit_char((w as nat / 4096) % 16),
            hex_digit_char((w as nat / 256) % 16),
            hex_digit_char((w as nat / 16) % 16),
            hex_digit_char((w as nat) % 16),
            ' ',
        ]
    }
}

pub open spec fn render_weights(s: Seq<u16>) -> Seq<char>
    decreases s.len(),
{
    if s.len() == 0 {
        Seq::empty()
    } else {
        render_weights(s.drop_last()) + render_weight(s.last())
    }
}

/// The canonical rendering of a key: `[`, each weight in turn, and a
/// closing `|]` marking the final level boundary.
pub open spec fn render_key(s: Seq<u16>) -> Seq<char> {
    seq!['['] + render_weights(s) + seq!['|', ']']
}

/// Relies on String::push: appends one character at the end.
#[verifier::external_body]
fn push_char(s: &mut String, c: char)
    ensures
        final(s)@ == old(s)@.push(c),
{
    s.push(c);
}

fn hex_char_of(d: u16) -> (r: char)
    requires
        d < 16,
    ensures
        r == hex_digit_char(d as nat),
{
    if d < 10 {
        (d as u8 + 48) as char
    } else {
        (d as u8 + 55) as char
    }
}

/// Strict lexicographic order over weight sequences.
pub open spec fn lex_less(a: Seq<u16>, b: Seq<u16>) -> bool
    decreases a.len(),
{
    if b.len() == 0 {
        false
    } else if a.len() == 0 {
        true
    } else if a[0] != b[0] {
        a[0] < b[0]
    } else {
        lex_less(a.drop_first(), b.drop_first())
    }
}

} // verus!
