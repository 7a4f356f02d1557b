use corp::bits::Reader;
use corp::util::{u32_bytes, u64_words, FormatError};
use corp::wrbits::BitsWriter;
use corp::wsketch::{can_read_record, read_record, ScoreScale, WMap, WMapRev};

fn header() -> BitsWriter {
    BitsWriter::new(vec![0u8; 16])
}

/// A first stream of version 4 with the heads 3, 5 and 70, in two runs.
fn map0() -> (Vec<u8>, Vec<u8>) {
    let mut w = header();
    w.delta(3); // size of the level
    w.delta(70); // the last id
    // fill the header up to bit 256
    while w.bits_written() < 128 {
        w.bit(false);
    }
    let first = 128 + w.bits_written();
    // a record to synchronise by: index 10, id 3
    w.delta(1);
    w.delta(10);
    w.delta(4);
    w.delta(2); // cnt
    w.delta(9); // frq
    // a record that adds: index +7, id +2
    w.delta(7);
    w.delta(2);
    w.delta(1);
    w.delta(4);
    let second = 128 + w.bits_written();
    // the second run: a record to synchronise by: index 40, id 70
    w.delta(1);
    w.delta(40);
    w.delta(71);
    w.delta(3);
    w.delta(8);
    let idx = u32_bytes(&[first as u32, second as u32]);
    (w.finish(), idx)
}

fn level(size: u64, body: impl Fn(&mut BitsWriter)) -> Vec<u8> {
    let mut w = header();
    w.delta(size);
    body(&mut w);
    w.finish()
}

fn rev_file(alignmult: u64, body: impl Fn(&mut BitsWriter)) -> Vec<u8> {
    let mut w = header();
    w.delta(alignmult);
    w.delta(1000);
    w.byte_align();
    body(&mut w);
    w.finish()
}

fn sketch() -> WMap {
    let (m0, idx) = map0();
    let m1 = level(1, |w| {
        w.bit(false);
    });
    let m2 = level(1, |w| {
        w.bit(false);
        w.bit(false);
    });
    let rev = rev_file(1, |_| {});
    WMap::new("ws", &m0, &m1, &m2, &idx, &rev).unwrap()
}

#[test]
fn word_sketch_header() {
    let ws = sketch();
    assert_eq!(ws.name, "ws");
    assert_eq!(ws.version, 4);
    assert_eq!(ws.final_id1, 70);
    assert_eq!(ws.levelsizes, (3, 1, 1));
    assert!(!ws.has_commonest);
    assert!(!ws.adjust_idx);
    assert!(!ws.has_ftt);
    assert_eq!(ws.scale, None);
    assert_eq!(ws.rev.alignmult, 1);
    assert!(!ws.rev.adjust_pos);
}

#[test]
fn word_sketch_version_five_stores_last_id_plus_one() {
    let (mut m0, idx) = map0();
    m0[10] = 1;
    let m1 = level(1, |_| {});
    let m2 = level(1, |w| {
        w.bit(true);
        w.bit(true);
        w.delta(12);
        w.delta(20);
        w.delta(11);
    });
    let rev = rev_file(2, |_| {});
    let ws = WMap::new("ws", &m0, &m1, &m2, &idx, &rev).unwrap();
    assert_eq!(ws.version, 5);
    assert_eq!(ws.final_id1, 69);
    assert!(ws.has_commonest);
    assert!(ws.adjust_idx);
    assert!(!ws.has_ftt);
    assert_eq!(ws.scale, Some(ScoreScale { sc_bits: 12, max_sc: 20, min_sc_shifted: 11 }));
    assert_eq!(ws.rev.alignmult, 1);
    assert!(ws.rev.adjust_pos);
}

#[test]
fn word_sketch_version_six_has_a_third_flag() {
    let (mut m0, idx) = map0();
    m0[10] = 2;
    let m1 = level(1, |_| {});
    let m2 = level(1, |w| {
        w.bit(false);
        w.bit(false);
        w.bit(true);
    });
    let rev = rev_file(1, |_| {});
    let ws = WMap::new("ws", &m0, &m1, &m2, &idx, &rev).unwrap();
    assert_eq!(ws.version, 6);
    assert!(ws.has_ftt);
}

#[test]
fn word_sketch_without_headers_is_refused() {
    let (m0, idx) = map0();
    let m1 = level(1, |_| {});
    let m2 = level(1, |w| {
        w.bit(false);
        w.bit(false);
    });
    let rev = rev_file(1, |_| {});
    assert!(matches!(
        WMap::new("ws", &m0[..8], &m1, &m2, &idx, &rev),
        Err(FormatError::BadHeader)
    ));
    assert!(matches!(WMap::new("ws", &m0, &[], &m2, &idx, &rev), Err(FormatError::BadHeader)));
    assert!(matches!(WMap::new("ws", &m0, &m1, &[], &idx, &rev), Err(FormatError::BadHeader)));
    assert!(matches!(WMap::new("ws", &m0, &m1, &m2, &idx, &[]), Err(FormatError::BadHeader)));
}

#[test]
fn find_id_finds_heads_that_have_an_entry() {
    let ws = sketch();
    for (id, idx, cnt, frq) in [(3u32, 10usize, 2u64, 9u64), (5, 17, 1, 4), (70, 40, 3, 8)] {
        assert!(ws.can_find_id(id));
        let item = ws.find_id(id).unwrap();
        assert_eq!(item.id, id);
        assert_eq!(item.idx, idx);
        assert_eq!(item.cnt, cnt);
        assert_eq!(item.frq, frq);
    }
}

#[test]
fn find_id_finds_nothing_for_other_ids() {
    let ws = sketch();
    for id in [0u32, 1, 2, 4] {
        assert!(ws.can_find_id(id));
        assert!(ws.find_id(id).is_none());
    }
    assert!(ws.find_id(64).is_none());
    assert!(ws.find_id(69).is_none());
}

#[test]
fn heads_are_iterated_from_a_position() {
    let ws = sketch();
    let mut it = ws.iter_ids();
    let mut ids = Vec::new();
    while it.can_next() {
        match it.next() {
            Some(h) => ids.push(h.id),
            None => break,
        }
    }
    assert_eq!(ids, vec![3, 5, 70]);
}

#[test]
fn records_add_or_synchronise() {
    let mut w = BitsWriter::new(Vec::new());
    w.delta(1);
    w.delta(100);
    w.delta(8);
    w.delta(5);
    w.delta(3);
    w.delta(5);
    w.delta(3);
    let mem = u64_words(&w.finish());
    let mut rb = Reader::open(&mem, 0);
    let (mut idx, mut id) = (7usize, 9u32);
    assert!(can_read_record(&rb, idx, id, false));
    read_record(&mut rb, &mut idx, &mut id, false);
    assert_eq!((idx, id), (100, 7));
    read_record(&mut rb, &mut idx, &mut id, false);
    assert_eq!((idx, id), (105, 10));
    read_record(&mut rb, &mut idx, &mut id, true);
    assert_eq!((idx, id), (109, 13));
    assert!(!can_read_record(&rb, idx, id, false));
}

fn nested() -> WMap {
    let (m0, idx) = map0();
    // relations of head 3 from bit 200 of the second stream: two entries
    let m1 = level(2, |w| {
        while w.bits_written() < 200 - 128 {
            w.bit(false);
        }
        w.delta(1);
        w.delta(300);
        w.delta(2); // relation 1 at index 300
        w.delta(1); // cnt
        w.delta(77); // score as stored
        w.delta(6); // frq
        w.delta(50);
        w.delta(4); // relation 5 at index 350
        w.delta(2);
        w.delta(5);
        w.delta(3);
    });
    // collocates of relation 1 from bit 300 of the third stream, with lists
    let m2 = level(2, |w| {
        w.bit(true);
        w.bit(true);
        w.delta(12);
        w.delta(20);
        w.delta(11);
        while w.bits_written() < 300 - 128 {
            w.bit(false);
        }
        w.delta(1);
        w.delta(4);
        w.delta(12); // collocate 11 at unit 4
        w.delta(2);
        w.delta(9);
        w.delta(2);
        w.gamma(3); // two commonest forms
        w.delta(8);
        w.delta(9);
        w.delta(3);
        w.delta(1); // index 4 + 3 - 1, id 12
        w.delta(1);
        w.delta(9);
        w.delta(1);
        w.gamma(1);
    });
    let rev = rev_file(8, |w| {
        while w.bits_written() < 8 * 4 * 8 - 128 {
            w.bit(false);
        }
        w.delta(15);
        w.gamma(1);
        w.delta(5);
        w.gamma(5);
        w.gamma(1);
        w.delta(1);
        w.gamma(6);
        w.gamma(1);
    });
    let mut m0 = m0;
    m0[10] = 1;
    WMap::new("ws", &m0, &m1, &m2, &idx, &rev).unwrap()
}

#[test]
fn relations_collocates_and_occurrences() {
    let ws = nested();
    let head = ws.find_id(3).unwrap();
    let mut head = head;
    head.idx = 200;
    let mut rels = head.iter();
    assert!(rels.can_next());
    let r1 = rels.next().unwrap();
    assert_eq!((r1.id, r1.idx, r1.cnt, r1.rnk, r1.frq), (1, 300, 1, 77, 6));
    assert!(rels.can_next());
    let r2 = rels.next().unwrap();
    assert_eq!((r2.id, r2.idx, r2.cnt, r2.rnk, r2.frq), (5, 350, 2, 5, 3));
    assert!(rels.next().is_none());

    let mut r1 = r1;
    r1.cnt = 2;
    let mut colls = r1.iter();
    assert!(colls.can_next());
    let c1 = colls.next().unwrap();
    assert_eq!((c1.id, c1.idx, c1.cnt, c1.rnk, c1.frq), (11, 4, 2, 9, 2));
    assert!(colls.can_next());
    let c2 = colls.next().unwrap();
    assert_eq!((c2.id, c2.idx, c2.cnt, c2.rnk, c2.frq), (12, 6, 1, 9, 1));
    assert!(colls.next().is_none());

    let mut c1 = c1;
    c1.cnt = 3;
    let mut occ = c1.iter();
    assert_eq!(occ.len(), 3);
    assert!(occ.can_next());
    assert_eq!(occ.next(), Some((15, None)));
    assert!(occ.can_next());
    assert_eq!(occ.next(), Some((20, Some(-2))));
    assert_eq!(occ.next(), Some((21, Some(3))));
    assert_eq!(occ.next(), None);
}

#[test]
fn positions_are_stored_one_too_high_with_multiplier_two() {
    let rev = rev_file(2, |w| {
        w.delta(16);
        w.gamma(1);
        w.delta(5);
        w.gamma(1);
    });
    let r = WMapRev::new(u64_words(&rev)).unwrap();
    assert!(r.adjust_pos);
    assert_eq!(r.alignmult, 1);
    let mut s = r.poss(rev.len() - 2, 2);
    assert_eq!(s.next(), Some((15, None)));
    assert_eq!(s.next(), Some((19, None)));
    assert_eq!(s.next(), None);
}
