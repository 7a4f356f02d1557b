use corp::mkrev::{
    positions_by_id, write_rev, write_rev_delta, write_rev_dense, RevError, RevFiles,
};
use corp::rev::{layout, open, AnyRev, Delta, DeltaDense, Layout, Rev};
use corp::text::{AnyText, Delta as DeltaText};
use corp::textwriter::DeltaTextWriter;
use corp::util::{u32_words, FormatError};

fn postings(r: &AnyRev, id: u32) -> Vec<u64> {
    assert!(r.check_id(id));
    let mut it = r.id2poss(id);
    let mut out = Vec::new();
    while let Some(p) = it.next() {
        out.push(p);
    }
    out
}

fn text_of(ids: &[u32]) -> AnyText {
    let mut w = DeltaTextWriter::new(128);
    for id in ids {
        assert!(w.push(*id).is_ok());
    }
    let f = w.finalize().unwrap();
    AnyText::Delta(DeltaText::open("t", &f.text, &f.seg).unwrap())
}

#[test]
fn positions_are_grouped_by_id() {
    let t = text_of(&[0, 1, 0, 2]);
    assert_eq!(positions_by_id(&t), vec![vec![0u32, 2], vec![1], vec![3]]);
    let empty = text_of(&[]);
    assert_eq!(positions_by_id(&empty), Vec::<Vec<u32>>::new());
    let gap = text_of(&[2]);
    assert_eq!(positions_by_id(&gap), vec![vec![], vec![], vec![0u32]]);
}

#[test]
fn posting_lists_cover_every_position_once() {
    let ids: Vec<u32> = (0..200u32).map(|i| (i * 31) % 17).collect();
    let lists = positions_by_id(&text_of(&ids));
    let total: usize = lists.iter().map(|l| l.len()).sum();
    assert_eq!(total, ids.len());
    let mut seen = vec![false; ids.len()];
    for (id, list) in lists.iter().enumerate() {
        for w in list.windows(2) {
            assert!(w[0] < w[1]);
        }
        for p in list {
            assert_eq!(ids[*p as usize], id as u32);
            assert!(!seen[*p as usize]);
            seen[*p as usize] = true;
        }
    }
    assert!(seen.iter().all(|s| *s));
}

#[test]
fn dense_index_of_four_tokens() {
    let lists = vec![vec![0u32, 2], vec![1], vec![3]];
    let files = write_rev_dense(&lists).unwrap();
    assert_eq!(&files.rev[..6], &[0xa8u8, b'f', b'i', b'n', b'D', b'R']);
    let r = open(&files.rev, &files.idx0, &files.idx1).unwrap();
    assert!(matches!(r, AnyRev::Dense(_)));
    assert_eq!(postings(&r, 0), vec![0, 2]);
    assert_eq!(postings(&r, 1), vec![1]);
    assert_eq!(postings(&r, 2), vec![3]);
    assert_eq!(r.count(0), 2);
    assert_eq!(r.count(1), 1);
    assert_eq!(r.count(2), 1);
}

#[test]
fn dense_locate_gives_offsets_of_the_posting_stream() {
    let lists = vec![vec![5u32, 6, 700], vec![3], vec![1, 100_000]];
    let files = write_rev_dense(&lists).unwrap();
    let d = DeltaDense::open(&files.rev, &files.idx0, &files.idx1);
    // list 0 begins behind the magic number; its three codes take 1 + 1 + 3 bytes at most
    let (o0, c0) = d.locate(0);
    let (o1, c1) = d.locate(1);
    let (o2, c2) = d.locate(2);
    assert_eq!((o0, c0), (6, 3));
    assert_eq!(c1, 1);
    assert_eq!(c2, 2);
    assert!(o0 < o1 && o1 < o2);
    assert_eq!(o2 as usize + 4, files.rev.len());
    let idx0 = u32_words(&files.idx0);
    assert_eq!(idx0, vec![0, files.idx1.len() as u32]);
    let r = AnyRev::Dense(d);
    assert_eq!(postings(&r, 0), vec![5, 6, 700]);
    assert_eq!(postings(&r, 2), vec![1, 100_000]);
}

#[test]
fn dense_index_of_many_groups() {
    let lists: Vec<Vec<u32>> = (0..200u32).map(|i| vec![i, i + 1000, i + 5000]).collect();
    let files = write_rev_dense(&lists).unwrap();
    let idx0 = u32_words(&files.idx0);
    assert_eq!(idx0.len(), 4 + 1);
    assert_eq!(*idx0.last().unwrap() as usize, files.idx1.len());
    let r = open(&files.rev, &files.idx0, &files.idx1).unwrap();
    for id in [0u32, 1, 63, 64, 65, 127, 128, 199] {
        assert_eq!(postings(&r, id), vec![id as u64, id as u64 + 1000, id as u64 + 5000]);
        assert_eq!(r.count(id), 3);
    }
}

#[test]
fn sparse_index_of_four_tokens() {
    let lists = vec![vec![0u32, 2], vec![1], vec![3]];
    let files = write_rev_delta(&lists).unwrap();
    assert_eq!(&files.rev[..6], &[0xa3u8, b'f', b'i', b'n', b'D', b'R']);
    assert_eq!(files.rev[6], 0b0010);
    assert_eq!(u32_words(&files.cnt), vec![2, 1, 1]);
    assert_eq!(u32_words(&files.idx), vec![7, 8, 9]);
    let d = Delta::open(&files.rev, &files.idx, &files.cnt).unwrap();
    assert_eq!(d.alignmult, 1);
    let r = AnyRev::Sparse(d);
    assert_eq!(postings(&r, 0), vec![0, 2]);
    assert_eq!(postings(&r, 1), vec![1]);
    assert_eq!(postings(&r, 2), vec![3]);
    assert_eq!(r.count(0), 2);
    assert!(!r.check_id(3));
}

#[test]
fn sparse_index_with_an_empty_list() {
    let lists = vec![vec![4u32], vec![], vec![9]];
    let files = write_rev_delta(&lists).unwrap();
    let r = open(&files.rev, &files.idx, &files.cnt).unwrap();
    assert_eq!(postings(&r, 1), Vec::<u64>::new());
    assert_eq!(postings(&r, 2), vec![9]);
}

#[test]
fn sparse_index_without_ids_has_multiplier_one() {
    let files = write_rev_delta(&Vec::new()).unwrap();
    let d = Delta::open(&files.rev, &files.idx, &files.cnt).unwrap();
    assert_eq!(d.alignmult, 1);
    assert_eq!(d.ids, 0);
}

#[test]
fn write_rev_writes_the_dense_layout() {
    let lists = vec![vec![0u32], vec![1]];
    match write_rev(&lists) {
        Ok(RevFiles::Dense(f)) => assert_eq!(layout(&f.rev), Ok(Layout::Dense)),
        _ => panic!("the dense layout is written"),
    }
}

#[test]
fn a_position_listed_twice_is_a_zero_gap() {
    let lists = vec![vec![0u32, 2, 2]];
    assert!(matches!(write_rev_dense(&lists), Err(RevError::ZeroGap)));
    assert!(matches!(write_rev_delta(&lists), Err(RevError::ZeroGap)));
}

#[test]
fn an_empty_list_behind_another_is_a_zero_delta() {
    let lists = vec![vec![0u32], vec![], vec![1]];
    assert!(matches!(write_rev_dense(&lists), Err(RevError::ZeroDelta)));
    // at the head of a group an empty list has the offset of the data before it
    let head = vec![vec![], vec![1u32]];
    assert!(matches!(write_rev_dense(&head), Err(RevError::ZeroDelta)));
    let only = vec![Vec::<u32>::new()];
    assert!(write_rev_dense(&only).is_ok());
}

#[test]
fn unknown_magic_is_refused() {
    assert_eq!(layout(b"\xa3finDR"), Ok(Layout::Sparse));
    assert_eq!(layout(b"\xa8finDRxx"), Ok(Layout::Dense));
    assert_eq!(layout(b"\xa3finDT"), Err(FormatError::BadMagic));
    assert_eq!(layout(b"\xa3fin"), Err(FormatError::BadMagic));
    assert!(matches!(open(b"nothing", &[], &[]), Err(FormatError::BadMagic)));
}

#[test]
fn check_id_refuses_what_cannot_be_read() {
    let lists = vec![vec![0u32, 2], vec![1], vec![3]];
    let files = write_rev_dense(&lists).unwrap();
    let r = open(&files.rev, &files.idx0, &files.idx1).unwrap();
    assert!(r.check_id(2));
    assert!(!r.check_id(64));
    let cut = open(&files.rev[..6], &files.idx0, &files.idx1).unwrap();
    assert!(!cut.check_id(0));
}
