use unicode_collation::collate;
use unicode_collation::multistage::MultiStage;
use unicode_collation::table::{CollationTable, TableError};

const HELLO_TABLE: &str = "\
0048 ; [.1D7E.0020.0008]\n\
0065 ; [.1D10.0020.0002]\n\
006C ; [.1DDD.0020.0002]\n\
006F ; [.1E43.0020.0002]\n\
0021 ; [*0261.0020.0002]\n";

#[test]
fn end_to_end_hello() {
    let table = CollationTable::from_text(HELLO_TABLE).unwrap();
    let key = collate("Hello!!!", &table);
    assert_eq!(
        key.render(),
        "[1D7E 1D10 1DDD 1DDD 1E43 0261 0261 0261 | \
         0020 0020 0020 0020 0020 0020 0020 0020 | \
         0008 0002 0002 0002 0002 0002 0002 0002 |]"
    );
}

#[test]
fn determinism() {
    let table = CollationTable::from_text(HELLO_TABLE).unwrap();
    let k1 = collate("Hello!!!", &table);
    let k2 = collate("Hello!!!", &table);
    assert_eq!(k1.weights(), k2.weights());
    assert_eq!(k1.render(), k2.render());
}

#[test]
fn separator_invariant() {
    let table = CollationTable::from_text(HELLO_TABLE).unwrap();
    for text in ["Hello!!!", "HHee", "", "xyz", "H"] {
        let key = collate(text, &table);
        let w = key.weights();
        for i in 0..w.len() {
            if i + 1 < w.len() {
                assert!(!(w[i] == 0 && w[i + 1] == 0));
            }
        }
        if let Some(last) = w.last() {
            assert_ne!(*last, 0);
        }
    }
}

#[test]
fn empty_weight_omitted() {
    // 'A' has no secondary weight: level 2 contributes nothing for it, so
    // the secondary segment is empty and its separator meets the next one
    // only through the tertiary weight that follows.
    let table = CollationTable::from_text("0041 ; [.1234.0000.0005]\n").unwrap();
    let key = collate("A", &table);
    assert_eq!(*key.weights(), vec![0x1234, 0, 0, 0x0005]);
}

#[test]
fn unassigned_code_points_empty_key() {
    let table = CollationTable::from_text(HELLO_TABLE).unwrap();
    assert_eq!(table.resolve('x').len(), 0);
    assert_eq!(table.resolve('\u{2603}').len(), 0);
    let key = collate("xyz", &table);
    assert_eq!(key.weights().len(), 0);
    assert_eq!(key.render(), "[|]");
}

#[test]
fn two_stage_round_trip() {
    let mut ms: MultiStage<u32> = MultiStage::new(8, 0);
    assert!(ms.get(0x41).is_none());
    let first = ms.entry(0x41);
    assert_eq!(first, 0);
    ms.set(0x41, 7);
    ms.set(0x41, 9);
    assert_eq!(ms.get(0x41), Some(&9));
    // the rest of the freshly allocated block holds the fill value
    assert_eq!(ms.get(0x42), Some(&0));
    // another block is still unallocated
    assert!(ms.get(0x4100).is_none());
}

#[test]
fn construction_idempotent() {
    let t1 = CollationTable::from_text(HELLO_TABLE).unwrap();
    let t2 = CollationTable::from_text(HELLO_TABLE).unwrap();
    for text in ["Hello!!!", "HoHo", "", "abc"] {
        assert_eq!(
            collate(text, &t1).weights(),
            collate(text, &t2).weights()
        );
    }
}

#[test]
fn four_level_entry() {
    let table = CollationTable::from_text("0041 ; [.0001.0002.0003.0004]\n").unwrap();
    let key = collate("A", &table);
    assert_eq!(*key.weights(), vec![1, 0, 2, 0, 3, 0, 4]);
}

#[test]
fn comments_and_directives_skipped() {
    let text = "# a comment line\n\n@version 1.0.0\n0041 ; [.0001.0002.0003] # trailing\n";
    let table = CollationTable::from_text(text).unwrap();
    assert_eq!(table.resolve('A').len(), 1);
}

#[test]
fn multiple_elements_per_entry() {
    let table = CollationTable::from_text("0041 ; [.0001.0002.0003][.0004.0005.0006]\n").unwrap();
    let rs = table.resolve('A');
    assert_eq!(rs.len(), 2);
    assert_eq!(rs[0].weights, [1, 2, 3, 0]);
    assert_eq!(rs[1].weights, [4, 5, 6, 0]);
}

#[test]
fn contraction_key_not_resolved_alone() {
    // a key of two code points records a contraction and no direct weights
    let table = CollationTable::from_text("0041 0300 ; [.1AAA.0020.0002]\n").unwrap();
    assert_eq!(table.resolve('A').len(), 0);
}

#[test]
fn format_error_reports_line() {
    match CollationTable::from_text("0041 ; [.0001.0002.0003]\nnot a line\n") {
        Err(TableError::Format { line }) => assert_eq!(line, 1),
        other => panic!("expected a format error, got {:?}", other.map(|_| ())),
    }
    // a code point beyond the Unicode range is malformed
    assert!(matches!(
        CollationTable::from_text("110000 ; [.0001.0002.0003]\n"),
        Err(TableError::Format { line: 0 })
    ));
    // an element with more than four weights is malformed
    assert!(matches!(
        CollationTable::from_text("0041 ; [.0001.0002.0003.0004.0005]\n"),
        Err(TableError::Format { line: 0 })
    ));
}

#[test]
fn duplicate_key_error() {
    let text = "0041 ; [.0001.0002.0003]\n0041 ; [.0004.0005.0006]\n";
    assert!(matches!(
        CollationTable::from_text(text),
        Err(TableError::DuplicateKey { code_point: 0x41 })
    ));
    // a contraction beginning with the same code point is no duplicate
    let text2 = "0041 ; [.0001.0002.0003]\n0041 0300 ; [.0004.0005.0006]\n";
    assert!(CollationTable::from_text(text2).is_ok());
}

#[test]
fn lexicographic_order() {
    let table = CollationTable::from_text(HELLO_TABLE).unwrap();
    let a = collate("He", &table);
    let b = collate("Ho", &table);
    let c = collate("H", &table);
    assert!(a.less_than(&b));
    assert!(!b.less_than(&a));
    assert!(c.less_than(&a));
    assert!(!a.less_than(&a));
}

#[test]
fn nfd_applies_before_resolution() {
    // U+00E9 decomposes to 'e' followed by U+0301; only the base letter is
    // keyed, so the decomposed combining mark contributes nothing.
    let table = CollationTable::from_text("0065 ; [.1D10.0020.0002]\n").unwrap();
    let composed = collate("\u{e9}", &table);
    let decomposed = collate("e\u{301}", &table);
    assert_eq!(composed.weights(), decomposed.weights());
    assert_eq!(*composed.weights(), vec![0x1D10, 0, 0x0020, 0, 0x0002]);
}
