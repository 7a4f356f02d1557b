use corp::conf::Block;
use corp::corp::{AnyAttr, DynAttr, StdAttr};
use corp::lex::MapLex;
use corp::lexwriter::LexWriter;
use corp::mkrev::{positions_by_id, write_rev_delta, write_rev_dense};
use corp::rev::open as open_rev;
use corp::structure::{check_begs, check_ends, MapStructure32};
use corp::text::{AnyText, Delta, Int};
use corp::textwriter::DeltaTextWriter;
use corp::util::u32_bytes;

fn ranges32(pairs: &[(u32, u32)]) -> MapStructure32 {
    let mut flat = Vec::new();
    for (b, e) in pairs {
        flat.push(*b);
        flat.push(*e);
    }
    MapStructure32::open("s", &u32_bytes(&flat))
}

#[test]
fn order_of_ranges_is_checked() {
    let s = ranges32(&[(0, 5), (5, 9), (9, 12), (12, 12)]);
    assert!(check_begs(&s));
    assert!(check_ends(&s));
    // the last range counts as the others do
    let last = ranges32(&[(0, 5), (5, 9), (9, 12), (0, 0)]);
    assert!(!check_begs(&last));
    assert!(!check_ends(&last));
    let nested = ranges32(&[(0, 9), (2, 5), (9, 12), (12, 13)]);
    assert!(check_begs(&nested));
    assert!(!check_ends(&nested));
    let back = ranges32(&[(5, 9), (0, 20), (9, 30), (12, 40)]);
    assert!(!check_begs(&back));
    assert!(check_ends(&back));
    assert!(check_begs(&ranges32(&[])));
    assert!(check_ends(&ranges32(&[(9, 1)])));
    assert!(!check_ends(&ranges32(&[(9, 9), (1, 1)])));
    assert!(check_ends(&ranges32(&[(1, 1), (9, 9)])));
}

fn lex_files(values: &[&str]) -> (Vec<u8>, Vec<u8>, Vec<u8>) {
    let mut w = LexWriter::new();
    for v in values {
        assert!(w.id_for(v).is_ok());
    }
    let f = w.finalize();
    (f.lex, f.srt, f.idx)
}

#[test]
fn lexicon_order_is_checked() {
    let (lex, srt, idx) = lex_files(&["pear", "apple", "zebra"]);
    let l = MapLex::open("l", &lex, &srt, &idx).unwrap();
    assert!(l.check());
    assert!(l.knows_id(2));
    assert!(!l.knows_id(3));
    let unsorted = MapLex::open("l", &lex, &u32_bytes(&[0, 1, 2]), &idx).unwrap();
    assert!(!unsorted.check());
    let twice = MapLex::open("l", &lex, &u32_bytes(&[1, 1, 2]), &idx).unwrap();
    assert!(!twice.check());
    let beyond = MapLex::open("l", &lex, &u32_bytes(&[1, 0, 7]), &idx).unwrap();
    assert!(!beyond.check());
    let (lex, srt, idx) = lex_files(&[]);
    assert!(MapLex::open("l", &lex, &srt, &idx).unwrap().check());
}

fn std_attr(ids: &[u32], values: &[&str]) -> StdAttr {
    let mut tw = DeltaTextWriter::new(4);
    for id in ids {
        assert!(tw.push(*id).is_ok());
    }
    let tf = tw.finalize().unwrap();
    let text = AnyText::Delta(Delta::open("word", &tf.text, &tf.seg).unwrap());
    let rf = write_rev_dense(&positions_by_id(&text)).unwrap();
    let (lex, srt, idx) = lex_files(values);
    StdAttr {
        path: "/d//word".to_string(),
        name: "word".to_string(),
        conf: Block::new(),
        lex: MapLex::open("word", &lex, &srt, &idx).unwrap(),
        text,
        rev: open_rev(&rf.rev, &rf.idx0, &rf.idx1).unwrap(),
    }
}

#[test]
fn attributes_are_checked() {
    let a = AnyAttr::Std(std_attr(&[0, 1, 2, 1], &["a", "b", "c"]));
    assert!(a.check());
    assert!(a.can_frq(1));
    assert!(!a.can_frq(64));
    let lrev = write_rev_delta(&vec![vec![0u32, 2], vec![1]]).unwrap();
    let (lex, srt, idx) = lex_files(&["x", "y"]);
    let make = |ridx: Vec<u32>| {
        AnyAttr::Dyn(DynAttr {
            path: "/d//lc".to_string(),
            name: "lc".to_string(),
            conf: Block::new(),
            lex: MapLex::open("lc", &lex, &srt, &idx).unwrap(),
            fromattr: Box::new(AnyAttr::Std(std_attr(&[0, 1, 2, 1], &["a", "b", "c"]))),
            ridx,
            lrev: open_rev(&lrev.rev, &lrev.idx, &lrev.cnt).unwrap(),
        })
    };
    let d = make(vec![0, 1, 0]);
    assert!(d.check());
    assert!(d.can_frq(0));
    assert_eq!(d.frq(0), 1 + 1);
    assert_eq!(d.frq(1), 2);
    assert!(!d.can_frq(2));
    let short = make(vec![0, 1]);
    assert!(!short.check());
}

#[test]
fn texts_are_checked() {
    let mut tw = DeltaTextWriter::new(4);
    for id in 0..10u32 {
        assert!(tw.push(id).is_ok());
    }
    let tf = tw.finalize().unwrap();
    assert!(AnyText::Delta(Delta::open("t", &tf.text, &tf.seg).unwrap()).check());
    assert!(!AnyText::Delta(Delta::open("t", &tf.text, &tf.seg[..4]).unwrap()).check());
    let mut int = Int::open("t", &[0u8; 24]).unwrap();
    assert!(AnyText::Int(Int::open("t", &[0u8; 24]).unwrap()).check());
    int.positions = 3;
    assert!(!AnyText::Int(int).check());
}
