//! The collation table: a flat array of weight records and a two-stage map
//! from each leading code point to its span of records, built once from the
//! weight-table text and read-only afterwards.

use crate::multistage::MultiStage;
use crate::parse::{
    is_skip_line, parse_entry, scan_entry, skip_line, spec_lines, split_lines, str_chars,
    RawEntry,
};
use vstd::arithmetic::div_mod::lemma_div_is_ordered;
use vstd::arithmetic::power2::lemma2_to64;
use vstd::prelude::*;

verus! {

/// One collation element: four ordered weights, one per collation level
/// (primary, secondary, tertiary, quaternary); 0 means "absent at this
/// level".
#[derive(Clone, Copy, Debug)]
pub struct WeightEntry {
    /// Weights for levels 1-4.
    pub weights: [u16; 4],
}

/// Why a table could not be built.
#[derive(Clone, Copy, Debug, PartialEq, Eq, Structural)]
pub enum TableError {
    /// The text does not conform to the weight-table grammar; the payload is
    /// the zero-based number of the first offending line.
    Format { line: usize },
    /// A single-code-point key was given direct weights a second time.
    DuplicateKey { code_point: u32 },
}

/// What a built table holds: the flat weight records, the span of records
/// of every code point keyed on its own, and how many contraction keys each
/// code point leads.
#[verifier::ext_equal]
pub ghost struct TableModel {
    pub weights: Seq<Seq<u16>>,
    pub spans: Map<u32, (nat, nat)>,
    pub contractions: Map<u32, nat>,
}

pub open spec fn empty_model() -> TableModel {
    TableModel { weights: Seq::empty(), spans: Map::empty(), contractions: Map::empty() }
}

/// One entry folded into the model. A contraction key (more than one code
/// point) counts toward its leading code point and leaves spans alone; a
/// single-code-point key records the span of its elements, and a second such
/// key for one code point is a duplicate.
pub open spec fn build_step(m: TableModel, e: RawEntry) -> Result<TableModel, u32> {
    let cp = e.code_points[0];
    let weights = m.weights + e.elements;
    if e.code_points.len() > 1 {
        let prev = if m.contractions.dom().contains(cp) {
            m.contractions[cp]
        } else {
            0
        };
        Ok(
            TableModel {
                weights,
                spans: m.spans,
                contractions: m.contractions.insert(cp, prev + 1),
            },
        )
    } else if m.spans.dom().contains(cp) {
        Err(cp)
    } else {
        Ok(
            TableModel {
                weights,
                spans: m.spans.insert(cp, (m.weights.len(), e.elements.len())),
                contractions: m.contractions,
            },
        )
    }
}

/// The first `n` lines folded into a model, or the first error: a malformed
/// line is reported with its number, a duplicate key with its code point.
pub open spec fn build_lines(lines: Seq<Seq<char>>, n: int) -> Result<TableModel, TableError>
    decreases n,
{
    if n <= 0 {
        Ok(empty_model())
    } else {
        match build_lines(lines, n - 1) {
            Err(e) => Err(e),
            Ok(m) => {
                let l = lines[n - 1];
                if is_skip_line(l) {
                    Ok(m)
                } else {
                    match parse_entry(l) {
                        None => Err(TableError::Format { line: (n - 1) as usize }),
                        Some(re) => match build_step(m, re) {
                            Err(cp) => Err(TableError::DuplicateKey { code_point: cp }),
                            Ok(m2) => Ok(m2),
                        },
                    }
                }
            },
        }
    }
}

/// The model a weight-table text builds, or the first error in it.
pub open spec fn spec_build(text: Seq<char>) -> Result<TableModel, TableError> {
    build_lines(spec_lines(text), spec_lines(text).len() as int)
}

/// The records a code point resolves to under a model: the span recorded
/// for it as a single-code-point key, and nothing otherwise.
pub open spec fn resolve_model(m: TableModel, cp: u32) -> Seq<Seq<u16>> {
    if m.spans.dom().contains(cp) {
        let (start, len) = m.spans[cp];
        m.weights.subrange(start as int, start as int + len as int)
    } else {
        Seq::empty()
    }
}

/// A model is valid when every record carries the four per-level weights
/// and every recorded span stays inside the weight array.
pub open spec fn model_valid(m: TableModel) -> bool {
    &&& forall|i: int| 0 <= i < m.weights.len() ==> (#[trigger] m.weights[i]).len() == 4
    &&& forall|cp: u32|
        m.spans.dom().contains(cp) ==> (#[trigger] m.spans[cp]).0 + m.spans[cp].1
            <= m.weights.len()
}

/// Every model a text builds is valid.
pub proof fn lemma_build_valid(lines: Seq<Seq<char>>, n: int)
    requires
        0 <= n,
        build_lines(lines, n) is Ok,
    ensures
        model_valid(build_lines(lines, n)->Ok_0),
    decreases n,
{
    if n > 0 {
        lemma_build_valid(lines, n - 1);
        let m = build_lines(lines, n - 1)->Ok_0;
        let l = lines[n - 1];
        if !is_skip_line(l) {
            crate::parse::lemma_parse_entry_shape(l);
            let re = parse_entry(l)->Some_0;
            let m2 = build_lines(lines, n)->Ok_0;
            assert forall|i: int| 0 <= i < m2.weights.len() implies (
            #[trigger] m2.weights[i]).len() == 4 by {
                if i < m.weights.len() {
                    assert(m2.weights[i] == m.weights[i]);
                } else {
                    assert(m2.weights[i] == re.elements[i - m.weights.len()]);
                }
            }
        }
    }
}
pub proof fn lemma_build_lines_err(lines: Seq<Seq<char>>, n: int, m: int)
    requires
        0 <= n <= m,
        build_lines(lines, n) is Err,
    ensures
        build_lines(lines, m) == build_lines(lines, n),
    decreases m,
{
    if m > n {
        lemma_build_lines_err(lines, n, m - 1);
    }
}

/// Construction idempotence: one text builds one model, so two tables built
/// from the same text resolve every code point alike and produce identical
/// sort keys.
pub proof fn lemma_build_idempotent(text: Seq<char>, m1: TableModel, m2: TableModel, cp: u32)
    requires
        spec_build(text) == Ok::<TableModel, TableError>(m1),
        spec_build(text) == Ok::<TableModel, TableError>(m2),
    ensures
        m1 == m2,
        resolve_model(m1, cp) == resolve_model(m2, cp),
{
}

/// Per leading-code-point record of the two-stage table.
#[derive(Clone, Copy)]
pub struct PrimaryEntry {
    /// Start of this code point's records in the weight array; `usize::MAX`
    /// while the code point has no direct (non-contraction) weights.
    pub weights: usize,
    /// Number of records in the span.
    pub len: usize,
    /// How many contraction keys begin with this code point.
    pub contraction: usize,
}

impl Default for PrimaryEntry {
    /// The record of a code point the table has not seen.
    fn default() -> (r: Self)
        ensures
            r.weights == usize::MAX,
            r.len == 0,
            r.contraction == 0,
    {
        PrimaryEntry { weights: usize::MAX, len: 0, contraction: 0 }
    }
}

/// The collation table: all weight records in file order, and the two-stage
/// map from each leading code point to its record span and contraction
/// count. Immutable once built.
pub struct CollationTable {
    /// Weights for all entries.
    weights: Vec<WeightEntry>,
    table: MultiStage<PrimaryEntry>,
}

impl CollationTable {
    /// Every span recorded in the two-stage map stays inside the weight
    /// array, and unassigned code points hold the default record.
    pub closed spec fn wf(self) -> bool {
        &&& self.table.wf()
        &&& self.table.spec_shift() == 8
        &&& self.table.fill_value() == (PrimaryEntry {
            weights: usize::MAX,
            len: 0,
            contraction: 0,
        })
        &&& forall|cp: u32|
            (#[trigger] self.table.spec_get(cp)) matches Some(e) ==> (e.weights != usize::MAX
                ==> e.weights + e.len <= self.weights@.len())
    }

    /// The model this table realises.
    pub closed spec fn model(self) -> TableModel {
        TableModel {
            weights: self.weights@.map_values(|w: WeightEntry| w.weights@),
            spans: Map::new(
                |cp: u32|
                    self.table.spec_get(cp) matches Some(e) && e.weights != usize::MAX,
                |cp: u32|
                    {
                        let e = self.table.spec_get(cp)->Some_0;
                        (e.weights as nat, e.len as nat)
                    },
            ),
            contractions: Map::new(
                |cp: u32| self.table.spec_get(cp) matches Some(e) && e.contraction > 0,
                |cp: u32| self.table.spec_get(cp)->Some_0.contraction as nat,
            ),
        }
    }

    fn new() -> (r: Self)
        ensures
            r.wf(),
            r.model() == empty_model(),
            forall|cp: u32| r.table.spec_get(cp) is None,
    {
        let r = CollationTable {
            weights: Vec::new(),
            table: MultiStage::new(8, PrimaryEntry::default()),
        };
        proof {
            assert(r.model().weights =~= empty_model().weights);
            assert(r.model().spans =~= empty_model().spans);
            assert(r.model().contractions =~= empty_model().contractions);
        }
        r
    }

    /// Build a table from the weight-table text. Succeeds exactly on texts
    /// whose every line is blank, a comment, an `@` directive or a
    /// well-formed entry, with no single-code-point key given direct weights
    /// twice; the built table realises precisely the model the text
    /// describes, entry by entry in file order.
    #[verifier::loop_isolation(false)]
    #[verifier::rlimit(100)]
    pub fn from_text(data: &str) -> (r: Result<CollationTable, TableError>)
        ensures
            match r {
                Ok(t) => t.wf() && spec_build(data@) == Ok::<TableModel, TableError>(t.model()),
                Err(e) => spec_build(data@) == Err::<TableModel, TableError>(e),
            },
    {
        let chars = str_chars(data);
        let lines = split_lines(&chars);
        let ghost lseq = lines@.map_values(|l: Vec<char>| l@);
        let mut table = CollationTable::new();
        let mut i: usize = 0;
        while i < lines.len()
            invariant
                i <= lines.len(),
                table.wf(),
                build_lines(lseq, i as int) == Ok::<TableModel, TableError>(table.model()),
                forall|cp: u32|
                    (#[trigger] table.table.spec_get(cp)) matches Some(e) ==> e.contraction
                        <= i,
            decreases lines.len() - i,
        {
            let line: &Vec<char> = &lines[i];
            assert(line@ == lseq[i as int]);
            if skip_line(line) {
                assert(build_lines(lseq, i + 1) == Ok::<TableModel, TableError>(table.model()));
            } else {
                let ghost m0 = table.model();
                match scan_entry(line) {
                    None => {
                        proof {
                            assert(build_lines(lseq, i + 1) == Err::<TableModel, TableError>(
                                TableError::Format { line: i },
                            ));
                            lemma_build_lines_err(lseq, i + 1, lseq.len() as int);
                        }
                        return Err(TableError::Format { line: i });
                    },
                    Some((cps, els)) => {
                        let ghost re = parse_entry(line@)->Some_0;
                        let ghost elsv = els@.map_values(|v: Vec<u16>| v@);
                        let ghost tab0 = table.table;
                        let weights_idx = table.weights.len();
                        proof {
                            assert(m0.weights + elsv.take(0) =~= m0.weights);
                        }
                        let mut k: usize = 0;
                        while k < els.len()
                            invariant
                                k <= els.len(),
                                table.table == tab0,
                                table.weights@.len() == weights_idx + k,
                                table.weights@.map_values(|w: WeightEntry| w.weights@)
                                    == m0.weights + elsv.take(k as int),
                            decreases els.len() - k,
                        {
                            let el: &Vec<u16> = &els[k];
                            let mut arr: [u16; 4] = [0u16; 4];
                            arr[0] = el[0];
                            arr[1] = el[1];
                            arr[2] = el[2];
                            arr[3] = el[3];
                            proof {
                                assert(arr@ =~= el@);
                                assert(elsv[k as int] == el@);
                                assert(elsv.take(k + 1) =~= elsv.take(k as int).push(el@));
                            }
                            table.weights.push(WeightEntry { weights: arr });
                            proof {
                                assert(table.weights@.map_values(|w: WeightEntry| w.weights@)
                                    =~= (m0.weights + elsv.take(k as int)).push(arr@));
                                assert((m0.weights + elsv.take(k as int)).push(arr@)
                                    =~= m0.weights + elsv.take(k + 1));
                            }
                            k += 1;
                        }
                        let total = table.weights.len();
                        assert(weights_idx < total);
                        assert(table.weights@.map_values(|w: WeightEntry| w.weights@)
                            =~= m0.weights + re.elements) by {
                            assert(elsv.take(els@.len() as int) =~= elsv);
                        }
                        let first = cps[0];
                        proof {
                            lemma2_to64();
                            assert(table.table.high_index(first) < 0xFFFF) by {
                                lemma_div_is_ordered(first as int, 0x10FFFF, 256);
                            }
                        }
                        let e = table.table.entry(first);
                        proof {
                            assert(table.model().spans =~= m0.spans);
                            assert(table.model().contractions =~= m0.contractions);
                        }
                        if cps.len() > 1 {
                            let newe = PrimaryEntry {
                                weights: e.weights,
                                len: e.len,
                                contraction: e.contraction + 1,
                            };
                            table.table.set(first, newe);
                            proof {
                                let m1 = build_step(m0, re)->Ok_0;
                                assert(table.model().spans =~= m1.spans);
                                assert(table.model().contractions =~= m1.contractions);
                                assert(table.model() =~= m1);
                                assert(build_lines(lseq, i + 1) == Ok::<
                                    TableModel,
                                    TableError,
                                >(table.model()));
                            }
                        } else {
                            if e.weights != usize::MAX {
                                proof {
                                    assert(m0.spans.dom().contains(first));
                                    assert(build_step(m0, re) == Err::<TableModel, u32>(first));
                                    assert(build_lines(lseq, i + 1) == Err::<
                                        TableModel,
                                        TableError,
                                    >(TableError::DuplicateKey { code_point: first }));
                                    lemma_build_lines_err(lseq, i + 1, lseq.len() as int);
                                }
                                return Err(TableError::DuplicateKey { code_point: first });
                            }
                            assert(!m0.spans.dom().contains(first));
                            let count = els.len();
                            let newe = PrimaryEntry {
                                weights: weights_idx,
                                len: count,
                                contraction: e.contraction,
                            };
                            table.table.set(first, newe);
                            proof {
                                let m1 = build_step(m0, re)->Ok_0;
                                assert(table.model().spans =~= m1.spans);
                                assert(table.model().contractions =~= m1.contractions);
                                assert(table.model() =~= m1);
                                assert(build_lines(lseq, i + 1) == Ok::<
                                    TableModel,
                                    TableError,
                                >(table.model()));
                            }
                        }
                    },
                }
            }
            i += 1;
        }
        proof {
            assert(lseq.len() == lines@.len());
        }
        Ok(table)
    }

    /// The records the given character resolves to: its recorded span, in
    /// table order, or nothing when the character never appeared as a
    /// single-code-point key.
    pub fn resolve(&self, c: char) -> (r: &[WeightEntry])
        requires
            self.wf(),
        ensures
            r@.map_values(|w: WeightEntry| w.weights@) == resolve_model(self.model(), c as u32),
    {
        let cp = c as u32;
        let found: Option<(usize, usize)> = match self.table.get(cp) {
            Some(e) => {
                if e.weights != usize::MAX {
                    Some((e.weights, e.len))
                } else {
                    None
                }
            },
            None => None,
        };
        match found {
            Some((start, len)) => {
                let n = self.weights.len();
                assert(start + len <= n);
                let r = vstd::slice::slice_subrange(self.weights.as_slice(), start, start + len);
                proof {
                    assert(r@.map_values(|w: WeightEntry| w.weights@) =~= resolve_model(
                        self.model(),
                        cp,
                    ));
                }
                r
            },
            None => {
                let r = vstd::slice::slice_subrange(self.weights.as_slice(), 0, 0);
                proof {
                    assert(r@.map_values(|w: WeightEntry| w.weights@) =~= resolve_model(
                        self.model(),
                        cp,
                    ));
                }
                r
            },
        }
    }
}

} // verus!
