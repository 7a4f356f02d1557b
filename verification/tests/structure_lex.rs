use corp::lex::{MapLex, Rank};
use corp::lexwriter::{LexError, LexWriter};
use corp::structure::{
    find_beg_i, find_end_i, num_at_pos_i, open, AnyStruct, MapStructure32, MapStructure64, Struct,
    NOT_FOUND,
};
use corp::util::{u32_bytes, u32_words};

fn ranges32(pairs: &[(u32, u32)]) -> MapStructure32 {
    let mut flat = Vec::new();
    for (b, e) in pairs {
        flat.push(*b);
        flat.push(*e);
    }
    MapStructure32::open("s", &u32_bytes(&flat))
}

fn ranges64(pairs: &[(u64, u64)]) -> MapStructure64 {
    let mut bytes = Vec::new();
    for (b, e) in pairs {
        corp::util::push_u64(&mut bytes, *b);
        corp::util::push_u64(&mut bytes, *e);
    }
    MapStructure64::open("s", &bytes)
}

#[test]
fn ranges_are_read_in_both_widths() {
    let s = ranges32(&[(0, 5), (5, 9)]);
    assert_eq!(Struct::len(&s), 2);
    assert!(!Struct::is_empty(&s));
    assert_eq!(s.beg_at(1), 5);
    assert_eq!(s.end_at(1), 9);
    let w = ranges64(&[(1 << 40, (1 << 40) + 3)]);
    assert_eq!(Struct::len(&w), 1);
    assert_eq!(w.beg_at(0), 1 << 40);
    assert_eq!(w.end_at(0), (1 << 40) + 3);
    assert!(matches!(open("s", true, &[0u8; 32]), AnyStruct::Wide(_)));
    assert!(matches!(open("s", false, &[0u8; 32]), AnyStruct::Narrow(_)));
    assert_eq!(Struct::len(&open("s", false, &[0u8; 33])), 4);
    assert_eq!(Struct::len(&open("s", true, &[0u8; 33])), 2);
    assert!(Struct::is_empty(&open("s", true, &[])));
}

#[test]
fn find_end_gives_the_first_range_that_ends_after() {
    let s = ranges32(&[(0, 5), (5, 9), (9, 12), (12, 20), (20, 21)]);
    assert_eq!(find_end_i(&s, 0), (0, 0));
    assert_eq!(find_end_i(&s, 4), (0, 0));
    assert_eq!(find_end_i(&s, 5), (1, 5));
    assert_eq!(find_end_i(&s, 8), (1, 5));
    assert_eq!(find_end_i(&s, 11), (2, 9));
    assert_eq!(find_end_i(&s, 19), (3, 12));
    // the last range is found as the others are
    assert_eq!(find_end_i(&s, 20), (4, 20));
    assert_eq!(find_end_i(&s, 21), (NOT_FOUND, NOT_FOUND));
    assert_eq!(s.find_end(11), (2, 9));
}

#[test]
fn searches_of_a_single_range() {
    let one = ranges32(&[(0, 1)]);
    assert_eq!(find_end_i(&one, 0), (0, 0));
    assert_eq!(find_end_i(&one, 1), (NOT_FOUND, NOT_FOUND));
    assert_eq!(find_beg_i(&one, 0), 0);
    assert_eq!(find_beg_i(&one, 1), NOT_FOUND);
    assert_eq!(num_at_pos_i(&one, 0), None);
    let wider = ranges32(&[(0, 5)]);
    assert_eq!(find_end_i(&wider, 4), (0, 0));
    assert_eq!(find_beg_i(&wider, 0), 0);
    assert_eq!(num_at_pos_i(&wider, 3), Some(0));
}

#[test]
fn searches_of_no_range_find_nothing() {
    assert_eq!(find_end_i(&ranges32(&[]), 0), (NOT_FOUND, NOT_FOUND));
    assert_eq!(find_beg_i(&ranges32(&[]), 0), NOT_FOUND);
    assert_eq!(num_at_pos_i(&ranges32(&[]), 0), None);
}

#[test]
fn searches_find_the_last_of_two_ranges() {
    let s = ranges32(&[(0, 5), (5, 9)]);
    assert_eq!(find_end_i(&s, 6), (1, 5));
    assert_eq!(find_end_i(&s, 8), (1, 5));
    assert_eq!(find_end_i(&s, 9), (NOT_FOUND, NOT_FOUND));
    assert_eq!(find_beg_i(&s, 5), 5);
    assert_eq!(find_beg_i(&s, 3), 5);
    assert_eq!(find_beg_i(&s, 6), NOT_FOUND);
}

#[test]
fn find_end_ends_after_a_position_that_a_range_holds() {
    let pairs: Vec<(u32, u32)> = (0..100u32).map(|i| (i * 10, i * 10 + 10)).collect();
    let s = ranges32(&pairs);
    for p in 0..1000u64 {
        let (idx, beg) = find_end_i(&s, p);
        assert_eq!(idx, p / 10);
        assert_eq!(beg, (p / 10) * 10);
        assert!(s.end_at(idx) > p);
    }
}

#[test]
fn find_beg_gives_the_first_beginning_from_the_position_on() {
    let s = ranges32(&[(0, 5), (5, 9), (9, 12), (12, 20), (20, 21)]);
    assert_eq!(find_beg_i(&s, 0), 0);
    assert_eq!(find_beg_i(&s, 5), 5);
    assert_eq!(find_beg_i(&s, 9), 9);
    assert_eq!(find_beg_i(&s, 12), 12);
    // a position behind the beginning of its range goes to the next range
    assert_eq!(find_beg_i(&s, 2), 5);
    assert_eq!(find_beg_i(&s, 13), 20);
    assert_eq!(find_beg_i(&s, 20), 20);
    assert_eq!(find_beg_i(&s, 21), NOT_FOUND);
    assert_eq!(s.find_beg(2), 5);
}

#[test]
fn find_beg_walks_back_over_equal_beginnings() {
    let s = ranges32(&[(5, 5), (5, 6), (5, 7), (8, 9), (9, 9)]);
    assert_eq!(find_beg_i(&s, 5), 5);
    assert_eq!(find_beg_i(&s, 4), 5);
    assert_eq!(find_beg_i(&s, 6), 8);
    let many: Vec<(u32, u32)> = (0..50u32).map(|i| (i / 7, i / 7 + 1)).collect();
    let m = ranges32(&many);
    for p in 0..8u64 {
        assert_eq!(find_beg_i(&m, p), p);
    }
}

#[test]
fn num_at_pos_follows_find_end() {
    let s = ranges32(&[(0, 5), (5, 9), (9, 12), (12, 20), (20, 21)]);
    // the first range that ends after 3 + 1 begins at 0
    assert_eq!(num_at_pos_i(&s, 3), Some(0));
    assert_eq!(num_at_pos_i(&s, 0), Some(0));
    // for the last position of a range the search goes to the next range,
    // and the range before that one begins elsewhere
    assert_eq!(num_at_pos_i(&s, 4), None);
    assert_eq!(num_at_pos_i(&s, 5), Some(1));
    assert_eq!(num_at_pos_i(&s, 30), None);
    assert_eq!(s.num_at_pos(10), Some(2));
    let w = AnyStruct::Wide(ranges64(&[(0, 5), (5, 9), (9, 12)]));
    assert_eq!(w.num_at_pos(6), Some(1));
    assert_eq!(w.find_end(6), (1, 5));
    assert_eq!(w.find_beg(6), 9);
    assert_eq!(w.find_beg(10), NOT_FOUND);
    assert_eq!(s.num_at_pos(15), Some(3));
}

fn lexicon(values: &[&str]) -> MapLex {
    let mut w = LexWriter::new();
    for v in values {
        assert!(w.id_for(v).is_ok());
    }
    let f = w.finalize();
    MapLex::open("lex", &f.lex, &f.srt, &f.idx).unwrap()
}

#[test]
fn lexicon_gives_ids_in_order_of_first_use() {
    let mut w = LexWriter::new();
    assert_eq!(w.id_for("a"), Ok(0));
    assert_eq!(w.id_for("b"), Ok(1));
    assert_eq!(w.id_for("a"), Ok(0));
    assert_eq!(w.id_for("c"), Ok(2));
    let f = w.finalize();
    assert_eq!(f.lex, b"a\0b\0c\0".to_vec());
    assert_eq!(u32_words(&f.idx), vec![0, 2, 4]);
    assert_eq!(u32_words(&f.srt), vec![0, 1, 2]);
}

#[test]
fn lexicon_files_are_sorted_by_string() {
    let mut w = LexWriter::new();
    for v in ["pear", "apple", "zebra", "app", "", "Zebra", "žába"] {
        assert!(w.id_for(v).is_ok());
    }
    let f = w.finalize();
    assert_eq!(u32_words(&f.srt), vec![4, 5, 3, 1, 0, 2, 6]);
    assert_eq!(u32_words(&f.idx), vec![0, 5, 11, 17, 21, 22, 28]);
}

#[test]
fn lexicon_round_trip() {
    let values = ["pear", "apple", "zebra", "app", "", "Zebra", "žába"];
    let l = lexicon(&values);
    assert_eq!(l.id_range(), 7);
    for (id, v) in values.iter().enumerate() {
        assert_eq!(l.id2str(id as u32), v.as_bytes());
        assert_eq!(l.str2id(v), Some(id as u32));
        let s = l.id2str(id as u32).to_vec();
        assert_eq!(l.bytes2id(&s), Some(id as u32));
    }
}

#[test]
fn lexicon_id_zero_and_last() {
    let l = lexicon(&["m", "a", "z"]);
    assert_eq!(l.str2id("m"), Some(0));
    assert_eq!(l.str2id("z"), Some(2));
    assert_eq!(l.id2str(0), b"m");
    assert_eq!(l.id2str(2), b"z");
}

#[test]
fn lexicon_does_not_find_what_it_lacks() {
    let l = lexicon(&["b", "d", "f"]);
    assert_eq!(l.str2id("a"), None);
    assert_eq!(l.str2id("c"), None);
    assert_eq!(l.str2id("g"), None);
    assert_eq!(l.str2id(""), None);
    assert_eq!(l.str2id("bb"), None);
}

#[test]
fn empty_lexicon() {
    let l = lexicon(&[]);
    assert_eq!(l.id_range(), 0);
    assert_eq!(l.str2id("a"), None);
    assert_eq!(l.str2id(""), None);
}

#[test]
fn rank_orders_bytes() {
    let l = lexicon(&["abc"]);
    assert_eq!(l.rank(0, b"abc"), Rank::Same);
    assert_eq!(l.rank(0, b"abd"), Rank::Before);
    assert_eq!(l.rank(0, b"abcd"), Rank::Before);
    assert_eq!(l.rank(0, b"ab"), Rank::After);
    assert_eq!(l.rank(0, b"abb"), Rank::After);
    assert_eq!(l.rank(0, b""), Rank::After);
}

#[test]
fn lexicon_error_names_the_overflow() {
    assert_eq!(LexError::OffsetOverflow, LexError::OffsetOverflow);
}
