use corp::text::{AnyText, Delta, GigaDelta, Int, Text};
use corp::textwriter::{
    align_writer, patch, AnyTextWriter, DeltaTextWriter, GigaDeltaTextWriter, IntTextWriter,
    TextError, TextFiles, TextType, TextWriter,
};
use corp::util::{u16_bytes, u32_bytes, u32_words, FormatError};
use corp::wrbits::BitsWriter;

fn delta_files(ids: &[u32], segment_size: usize) -> (Vec<u8>, Vec<u8>) {
    let mut w = DeltaTextWriter::new(segment_size);
    for id in ids {
        assert!(w.push(*id).is_ok());
    }
    let files = w.finalize().unwrap();
    (files.text, files.seg)
}

fn collect(t: &Delta, from: u64) -> Vec<u32> {
    let mut it = t.at(from);
    let mut out = Vec::new();
    while let Some(id) = it.next() {
        out.push(id);
    }
    out
}

#[test]
fn delta_text_of_four_tokens() {
    let (text, seg) = delta_files(&[0, 1, 0, 2], 128);
    assert_eq!(&text[..6], &[0xa3u8, b'f', b'i', b'n', b'D', b'T']);
    assert_eq!(&text[6..16], &[0u8; 10]);
    let segs = u32_words(&seg);
    assert_eq!(segs[0], 32 * 8);
    let t = Delta::open("word", &text, &seg).unwrap();
    assert_eq!(t.size(), 4);
    assert_eq!(t.segment_size, 128);
    assert_eq!(t.name, "word");
    assert!(t.check());
    assert_eq!(collect(&t, 0), vec![0, 1, 0, 2]);
}

#[test]
fn delta_text_data_starts_at_byte_32() {
    let (text, seg) = delta_files(&[5], 128);
    // id 5 is written as delta(6): gamma(3) = "0" "1" "1", then the two low bits of 6: 0, 1
    assert_eq!(text.len(), 33);
    assert_eq!(text[32], 0b10_110);
    assert_eq!(u32_words(&seg), vec![256, 256 + 5]);
}

#[test]
fn delta_text_get_agrees_with_iterator() {
    let ids: Vec<u32> = (0..300u32).map(|i| (i * 7919) % 1000).collect();
    let (text, seg) = delta_files(&ids, 16);
    let t = Delta::open("a", &text, &seg).unwrap();
    assert!(t.check());
    for p in 0..ids.len() as u64 {
        assert_eq!(t.get(p), ids[p as usize]);
        let mut it = t.at(p);
        assert_eq!(it.next(), Some(ids[p as usize]));
    }
    assert_eq!(collect(&t, 123), ids[123..].to_vec());
    assert_eq!(collect(&t, 300), Vec::<u32>::new());
}

#[test]
fn delta_text_segments_join_to_the_whole() {
    let ids: Vec<u32> = (0..100u32).map(|i| i % 13).collect();
    let s = 8usize;
    let (text, seg) = delta_files(&ids, s);
    let t = Delta::open("a", &text, &seg).unwrap();
    let mut joined = Vec::new();
    let mut k = 0usize;
    while k * s < ids.len() {
        let mut it = t.at((k * s) as u64);
        for _ in 0..s {
            match it.next() {
                Some(id) => joined.push(id),
                None => break,
            }
        }
        k += 1;
    }
    assert_eq!(joined, collect(&t, 0));
    assert_eq!(joined, ids);
}

#[test]
fn delta_text_iterator_opens_at_segment_entry() {
    let ids: Vec<u32> = (0..40u32).collect();
    let (text, seg) = delta_files(&ids, 8);
    let segs = u32_words(&seg);
    let t = Delta::open("a", &text, &seg).unwrap();
    for k in 0..5u64 {
        let it = t.at(k * 8);
        assert_eq!(it.rb.bitpos(), segs[k as usize] as usize);
        assert_eq!(it.remaining, 40 - k * 8);
    }
    // the entry behind the last segment is the end of the data
    assert_eq!(segs.len(), 6);
    assert_eq!(t.at(40).rb.bitpos(), segs[5] as usize);
}

#[test]
fn delta_text_check_rejects_a_wrong_segment_entry() {
    let ids: Vec<u32> = (0..40u32).collect();
    let (text, seg) = delta_files(&ids, 8);
    let mut segs = u32_words(&seg);
    segs[2] += 1;
    let t = Delta::open("a", &text, &u32_bytes(&segs)).unwrap();
    assert!(!t.check());
}

#[test]
fn delta_text_check_rejects_a_short_stream() {
    let ids: Vec<u32> = (0..40u32).collect();
    let (text, seg) = delta_files(&ids, 8);
    let t = Delta::open("a", &text[..40], &seg).unwrap();
    assert!(!t.check());
}

#[test]
fn empty_delta_text() {
    let (text, seg) = delta_files(&[], 128);
    let t = Delta::open("a", &text, &seg).unwrap();
    assert_eq!(t.size(), 0);
    assert!(t.check());
    assert_eq!(collect(&t, 0), Vec::<u32>::new());
    assert_eq!(u32_words(&seg), vec![256]);
}

#[test]
fn single_token_delta_text() {
    let (text, seg) = delta_files(&[0], 128);
    let t = Delta::open("a", &text, &seg).unwrap();
    assert_eq!(t.size(), 1);
    assert_eq!(t.get(0), 0);
    assert_eq!(u32_words(&seg), vec![256, 257]);
}

#[test]
fn text_without_header_is_refused() {
    assert!(matches!(Delta::open("a", &[0u8; 16], &[]), Err(FormatError::BadHeader)));
    assert!(matches!(GigaDelta::open("a", &[], &[], &[]), Err(FormatError::BadHeader)));
    assert!(matches!(Int::open("a", &[0u8; 15]), Err(FormatError::BadHeader)));
}

#[test]
fn header_is_rewritten_with_the_count() {
    let (text, _) = delta_files(&[1, 2, 3, 4, 5, 6, 7], 128);
    let mut w = BitsWriter::new(Vec::new());
    w.delta(129);
    w.delta(8);
    let header = w.finish();
    assert_eq!(&text[16..16 + header.len()], &header[..]);
    assert!(text[16 + header.len()..32].iter().all(|b| *b == 0));
}

fn giga_text(ids: &[u32]) -> GigaDelta {
    let mut w = GigaDeltaTextWriter::new();
    for id in ids {
        assert!(w.push(*id).is_ok());
    }
    let files = w.finalize();
    GigaDelta::open("a", &files.text, &files.seg, &files.off).unwrap()
}

#[test]
fn giga_delta_reads_byte_offsets_into_blocks() {
    // two runs of 64 ids; each id 0 is one bit, so a run is eight bytes
    let ids = vec![0u32; 128];
    let mut w = GigaDeltaTextWriter::new();
    for id in &ids {
        assert!(w.push(*id).is_ok());
    }
    let files = w.finalize();
    let seg = u32_bytes(&[0u32]);
    let off = u16_bytes(&[32u16, 40u16, 48u16]);
    assert_eq!(files.seg, seg);
    assert_eq!(files.off, u16_bytes(&[32u16, 40u16]));
    let t = GigaDelta::open("a", &files.text, &seg, &off).unwrap();
    assert_eq!(t.size(), 128);
    assert!(t.check());
    let it = t.at(64);
    assert_eq!(it.rb.bitpos(), 0 * 16384 + 40 * 8);
    assert_eq!(it.position, 64);
    assert_eq!(t.at(0).rb.bitpos(), 32 * 8);
    assert_eq!(t.at(128).rb.bitpos(), 48 * 8);
    assert_eq!(t.get(70), 0);
    let any = AnyText::GigaDelta(t);
    assert_eq!(any.size(), 128);
    assert!(any.posat(3).is_some());
    assert!(any.structat(3).is_none());
}

#[test]
fn giga_delta_writer_indexes_runs_by_bytes() {
    let mut w = GigaDeltaTextWriter::new();
    for i in 0..130u32 {
        assert!(w.push(i % 2).is_ok());
    }
    let files = w.finalize();
    assert_eq!(u32_words(&files.seg), vec![0]);
    let offs = corp::util::u16_words(&files.off);
    assert_eq!(offs.len(), 3);
    // the first id stands at byte 32, which is bit 256
    assert_eq!(offs[0], 32);
    // 32 ids 0 of one bit each and 32 ids 1 of four bits each in a run
    assert_eq!(offs[1], 32 + (32 + 32 * 4) / 8);
    assert_eq!(offs[2], 32 + 2 * (32 + 32 * 4) / 8);
}

#[test]
fn giga_delta_runs_begin_at_byte_boundaries() {
    // 64 ids 3 of five bits each: a run of 320 bits; then one id 0 and 63
    // ids 1: 1 + 63 * 4 = 253 bits, filled up to 32 bytes
    let mut ids = vec![3u32; 64];
    ids.push(0);
    ids.extend(vec![1u32; 63]);
    ids.extend(vec![7u32, 0, 3]);
    let mut w = GigaDeltaTextWriter::new();
    for id in &ids {
        assert!(w.push(*id).is_ok());
    }
    let files = w.finalize();
    assert_eq!(corp::util::u16_words(&files.off), vec![32, 72, 104]);
    let t = GigaDelta::open("a", &files.text, &files.seg, &files.off).unwrap();
    assert!(t.check());
    assert_eq!(t.size(), ids.len());
    assert_eq!(t.at(128).rb.bitpos(), 104 * 8);
    for from in [0usize, 1, 63, 64, 65, 127, 128, 130, 131] {
        let mut it = t.at(from as u64);
        let mut out = Vec::new();
        while let Some(id) = it.next() {
            out.push(id);
        }
        assert_eq!(out, ids[from..].to_vec());
    }
    for p in 0..ids.len() {
        assert_eq!(t.get(p as u64), ids[p]);
    }
}

#[test]
fn giga_delta_writer_and_reader_agree_over_blocks() {
    // ids of 42 bits each pass the first block of 2048 bytes within the
    // first run of 1024, and the second run of 1024 names a later block
    let ids: Vec<u32> = (0..2100u32).map(|i| 0xffff_fff0 - (i % 7)).collect();
    let mut w = GigaDeltaTextWriter::new();
    for id in &ids {
        assert!(w.push(*id).is_ok());
    }
    let files = w.finalize();
    let segs = u32_words(&files.seg);
    let offs = corp::util::u16_words(&files.off);
    assert_eq!(segs.len(), 3);
    assert_eq!(offs.len(), 33);
    assert_eq!(segs[0], 0);
    // a run of 64 ids of 42 bits is 336 bytes
    assert_eq!(offs[1], 32 + 336);
    assert_eq!(segs[1] as usize, (32 + 16 * 336) / 2048);
    assert_eq!(offs[16] as usize, (32 + 16 * 336) % 2048);
    assert_eq!(offs[17] as usize, (32 + 16 * 336) % 2048 + 336);
    let t = GigaDelta::open("a", &files.text, &files.seg, &files.off).unwrap();
    assert!(t.check());
    let any = AnyText::GigaDelta(t);
    let mut it = any.posat(0).unwrap();
    let mut out = Vec::new();
    while let Some(id) = it.next() {
        out.push(id);
    }
    assert_eq!(out, ids);
    assert_eq!(any.get(1024), ids[1024]);
    assert_eq!(any.get(2099), ids[2099]);
}

#[test]
fn giga_delta_with_a_missing_run_is_not_valid() {
    let t = giga_text(&[5u32; 70]);
    assert!(t.check());
    let short = GigaDelta { offset: vec![t.offset[0]], ..giga_text(&[5u32; 70]) };
    assert!(!short.check());
    let empty = giga_text(&[]);
    assert!(empty.check());
    assert_eq!(empty.size(), 0);
    assert!(empty.at(0).next().is_none());
}

#[test]
fn int_text_round_trip() {
    let mut w = IntTextWriter::new();
    for id in [3u32, 1, 4, 1, 5] {
        assert!(w.push(id).is_ok());
    }
    let file = w.finalize();
    assert_eq!(&file[..6], &[0xa3u8, b'f', b'i', b'n', b'I', b'T']);
    assert_eq!(file.len(), 16 + 5 * 4);
    let t = Int::open("doc.id", &file).unwrap();
    assert_eq!(t.size(), 5);
    assert_eq!(t.get(2), 4);
    let any = AnyText::Int(t);
    assert!(any.posat(0).is_none());
    let mut it = any.structat(3).unwrap();
    assert_eq!(it.next(), Some(1));
    assert_eq!(it.next(), Some(5));
    assert_eq!(it.next(), None);
    assert_eq!(any.get(0), 3);
}

#[test]
fn int_text_size_is_words_less_four() {
    let t = Int::open("a", &[0u8; 16 + 4 * 3 + 2]).unwrap();
    assert_eq!(t.size(), 3);
}

#[test]
fn any_text_writer_picks_the_layout() {
    let mut w = AnyTextWriter::new(TextType::Int, 128);
    assert!(w.push(7).is_ok());
    match w.finalize() {
        Ok(TextFiles::Int(f)) => assert_eq!(&f[16..], &[7u8, 0, 0, 0]),
        _ => panic!("an array was asked for"),
    }
    let w = AnyTextWriter::new(TextType::Delta, 4);
    assert!(matches!(w.finalize(), Ok(TextFiles::Delta(_))));
    let w = AnyTextWriter::new(TextType::GigaDelta, 4);
    assert!(matches!(w.finalize(), Ok(TextFiles::GigaDelta(_))));
}

#[test]
fn align_writer_pads_with_zeros() {
    let mut v = vec![1u8; 17];
    assert_eq!(align_writer(&mut v, 17, 32), 32);
    assert_eq!(v.len(), 32);
    assert!(v[17..].iter().all(|b| *b == 0));
    assert_eq!(align_writer(&mut v, 32, 32), 32);
    assert_eq!(align_writer(&mut v, 5, 0), 5);
    assert_eq!(v.len(), 32);
}

#[test]
fn patch_overwrites_and_grows() {
    let mut v = vec![1u8, 2, 3, 4];
    patch(&mut v, 1, &vec![9u8, 9]);
    assert_eq!(v, vec![1u8, 9, 9, 4]);
    patch(&mut v, 3, &vec![7u8, 7]);
    assert_eq!(v, vec![1u8, 9, 9, 7, 7]);
}

#[test]
fn text_errors_are_distinct() {
    assert_ne!(TextError::SegmentOverflow, TextError::OffsetOverflow);
}
