use corp::conf::Block;
use corp::encoder::{
    flush_pending_empty, split_tabs, AttrWriter, EncErr, EncodeError, Encoder, Event, Output,
    StructAttrWriter, StructWriter,
};
use corp::encodevert::{
    add_suffix, attr_text_type, default_value, make_encoder, parse_attrs, parse_tag, parse_usize,
    segment_size, trim, wide, Tag,
};
use corp::lex::MapLex;
use corp::mkrev::{positions_by_id, write_rev_dense};
use corp::rev::{open as open_rev, Rev};
use corp::text::{AnyText, Delta, GigaDelta, Int, Text};
use corp::textwriter::{TextFiles, TextType};
use corp::util::u32_words;

fn value(k: &str, v: &str) -> (String, String) {
    (k.to_string(), v.to_string())
}

fn block(values: &[(&str, &str)]) -> Block {
    let mut b = Block::new();
    for (k, v) in values {
        b.values.push(value(k, v));
    }
    b
}

fn conf(attrs: &[&str], structs: &[(&str, &[&str])]) -> Block {
    let mut c = block(&[("PATH", "/tmp/c")]);
    for a in attrs {
        c.attributes.push((a.to_string(), Block::new()));
    }
    for (s, sattrs) in structs {
        let mut sb = Block::new();
        for a in *sattrs {
            sb.attributes.push((a.to_string(), Block::new()));
        }
        c.structures.push((s.to_string(), sb));
    }
    c
}

fn encode(c: &Block, input: &str) -> Output {
    let mut e = make_encoder(c);
    for line in input.lines() {
        assert!(e.process_line(line).is_ok());
    }
    assert!(e.end_input().is_ok());
    e.finalize().unwrap()
}

fn delta_ids(f: &TextFiles) -> Vec<u32> {
    match f {
        TextFiles::Delta(d) => {
            let t = Delta::open("t", &d.text, &d.seg).unwrap();
            assert!(t.check());
            let mut it = t.at(0);
            let mut out = Vec::new();
            while let Some(id) = it.next() {
                out.push(id);
            }
            out
        }
        _ => panic!("a delta text is expected"),
    }
}

fn ranges(rng: &[u8]) -> Vec<(u32, u32)> {
    u32_words(rng).chunks(2).map(|p| (p[0], p[1])).collect()
}

#[test]
fn four_tokens_of_one_attribute() {
    let out = encode(&conf(&["word"], &[]), "a\nb\na\nc\n");
    assert_eq!(out.attrs.len(), 1);
    let a = &out.attrs[0];
    assert_eq!(a.lex.lex, b"a\0b\0c\0".to_vec());
    assert_eq!(u32_words(&a.lex.idx), vec![0, 2, 4]);
    assert_eq!(u32_words(&a.lex.srt), vec![0, 1, 2]);
    assert_eq!(delta_ids(&a.text), vec![0, 1, 0, 2]);
    match &a.text {
        TextFiles::Delta(d) => {
            assert_eq!(u32_words(&d.seg)[0], 32 * 8);
            let t = Delta::open("word", &d.text, &d.seg).unwrap();
            assert_eq!(t.size(), 4);
            let lists = positions_by_id(&AnyText::Delta(t));
            assert_eq!(lists, vec![vec![0u32, 2], vec![1], vec![3]]);
            let rev = write_rev_dense(&lists).unwrap();
            let r = open_rev(&rev.rev, &rev.idx0, &rev.idx1).unwrap();
            let mut it = r.id2poss(0);
            assert_eq!(it.next(), Some(0));
            assert_eq!(it.next(), Some(2));
            assert_eq!(it.next(), None);
            assert_eq!(r.count(1), 1);
            assert_eq!(r.count(2), 1);
        }
        _ => panic!("a delta text is expected"),
    }
    let lex = MapLex::open("word", &a.lex.lex, &a.lex.srt, &a.lex.idx).unwrap();
    for id in [0u32, 1, 0, 2] {
        let s = lex.id2str(id).to_vec();
        assert_eq!(lex.bytes2id(&s), Some(id));
    }
}

#[test]
fn two_attributes_side_by_side() {
    let out = encode(&conf(&["word", "lemma"], &[]), "a\ta\nb\tb\n");
    assert_eq!(out.attrs.len(), 2);
    for a in &out.attrs {
        assert_eq!(delta_ids(&a.text), vec![0, 1]);
        assert_eq!(a.lex.lex, b"a\0b\0".to_vec());
    }
}

#[test]
fn a_structure_with_an_attribute() {
    let out = encode(&conf(&["word"], &[("doc", &["id"])]), "<doc id=\"x\">\nw\n</doc>\n");
    assert_eq!(out.structs.len(), 1);
    let s = &out.structs[0];
    assert_eq!(s.name, "doc");
    assert_eq!(ranges(&s.rng), vec![(0, 1)]);
    assert_eq!(s.attrs.len(), 1);
    assert_eq!(s.attrs[0].name, "id");
    assert_eq!(s.attrs[0].lex.lex, b"x\0".to_vec());
    let t = Int::open("doc.id", &s.attrs[0].text).unwrap();
    assert_eq!(t.size(), 1);
    assert_eq!(t.get(0), 0);
}

#[test]
fn a_self_closing_tag_before_a_token() {
    let out = encode(&conf(&["word"], &[("p", &[])]), "<p/>\nw\n");
    assert_eq!(ranges(&out.structs[0].rng), vec![(0, 0)]);
    let two = encode(&conf(&["word"], &[("p", &[])]), "<p/>\nw\n<p/>\n");
    assert_eq!(ranges(&two.structs[0].rng), vec![(0, 0), (1, 1)]);
}

#[test]
fn a_self_closing_tag_is_replaced_by_an_opening_at_its_position() {
    let c = conf(&["word"], &[("p", &[])]);
    let mut e = make_encoder(&c);
    assert_eq!(e.process_line("<p/>"), Ok(Event::Opened { again: None }));
    match e.process_line("<p>") {
        Ok(Event::Opened { again: Some(n) }) => {
            assert!(n.show);
            assert!(!n.last_shown);
        }
        _ => panic!("the structure is opened again at its position"),
    }
    assert_eq!(e.process_line("w"), Ok(Event::Token));
    assert_eq!(e.process_line("</p>"), Ok(Event::Closed));
    assert_eq!(e.end_input(), Ok(None));
    let out = e.finalize().unwrap();
    assert_eq!(ranges(&out.structs[0].rng), vec![(0, 1)]);
}

#[test]
fn nested_structures_are_written_as_they_close() {
    let c = conf(&["word"], &[("doc", &[]), ("s", &[])]);
    let out = encode(&c, "<doc>\n<s>\na\nb\n</s>\n<s>\nc\n</s>\n</doc>\n");
    assert_eq!(ranges(&out.structs[0].rng), vec![(0, 3)]);
    assert_eq!(ranges(&out.structs[1].rng), vec![(0, 2), (2, 3)]);
}

#[test]
fn wide_ranges_are_pairs_of_64_bits() {
    let mut c = conf(&["word"], &[("doc", &[])]);
    c.structures[0].1.values.push(value("TYPE", "file64"));
    let out = encode(&c, "<doc>\na\n</doc>\n");
    assert_eq!(out.structs[0].rng, vec![0u8, 0, 0, 0, 0, 0, 0, 0, 1, 0, 0, 0, 0, 0, 0, 0]);
}

#[test]
fn blank_lines_and_comments_are_passed_over() {
    let c = conf(&["word"], &[]);
    let mut e = make_encoder(&c);
    assert_eq!(e.process_line(""), Ok(Event::Skipped));
    assert_eq!(e.process_line("   "), Ok(Event::Skipped));
    assert_eq!(e.process_line("# a comment"), Ok(Event::Skipped));
    assert_eq!(e.process_line("  #x"), Ok(Event::Skipped));
    assert_eq!(e.pos, 0);
    assert_eq!(e.process_line("x"), Ok(Event::Token));
    assert_eq!(e.pos, 1);
}

#[test]
fn a_tag_of_no_structure_is_a_token() {
    let out = encode(&conf(&["word"], &[("doc", &[])]), "<g/>\n</x>\n");
    assert_eq!(out.attrs[0].lex.lex, b"<g/>\0</x>\0".to_vec());
    assert_eq!(ranges(&out.structs[0].rng), vec![]);
}

#[test]
fn missing_fields_take_the_default() {
    let mut c = conf(&["word", "lemma", "tag"], &[]);
    c.attributes[2].1.values.push(value("DEFAULTVALUE", "X"));
    let out = encode(&c, "a\tb\tc\nd\n");
    assert_eq!(out.attrs[1].lex.lex, b"b\0===NONE===\0".to_vec());
    assert_eq!(out.attrs[2].lex.lex, b"c\0X\0".to_vec());
}

#[test]
fn structure_attributes_take_tag_values_or_defaults() {
    let mut c = conf(&["word"], &[("doc", &["id", "lang"])]);
    c.structures[0].1.attributes[1].1.values.push(value("DEFAULTVALUE", "en"));
    let out = encode(&c, "<doc id=1 other=\"q\">\na\n</doc>\n<doc lang='cs'>\nb\n</doc>\n");
    let s = &out.structs[0];
    assert_eq!(ranges(&s.rng), vec![(0, 1), (1, 2)]);
    assert_eq!(s.attrs[0].lex.lex, b"1\0===NONE===\0".to_vec());
    assert_eq!(s.attrs[1].lex.lex, b"en\0cs\0".to_vec());
    assert_eq!(&s.attrs[1].text[16..], &[0u8, 0, 0, 0, 1, 0, 0, 0]);
}

#[test]
fn dynamic_attributes_are_not_written() {
    let mut c = conf(&["word", "lc", "lemma"], &[]);
    c.attributes[1].1.values.push(value("DYNAMIC", "lowercase"));
    let out = encode(&c, "A\ta\n");
    assert_eq!(out.attrs.len(), 2);
    assert_eq!(out.attrs[0].lex.lex, b"A\0".to_vec());
    assert_eq!(out.attrs[1].lex.lex, b"a\0".to_vec());
}

#[test]
fn closing_without_opening_is_a_warning() {
    let c = conf(&["word"], &[("doc", &[]), ("s", &[])]);
    let mut e = make_encoder(&c);
    match e.process_line("</doc>") {
        Ok(Event::NotOpen { notice }) => assert!(notice.show),
        _ => panic!("no structure stands open"),
    }
    assert_eq!(e.process_line("<doc>"), Ok(Event::Opened { again: None }));
    assert_eq!(e.process_line("w"), Ok(Event::Token));
    match e.process_line("</s>") {
        Ok(Event::Mismatch { notice }) => assert!(notice.show),
        _ => panic!("another structure was opened last"),
    }
    assert_eq!(e.open_structs.len(), 1);
    match e.end_input() {
        Ok(Some((n, notice))) => {
            assert_eq!(n, 1);
            assert!(notice.show);
        }
        _ => panic!("a structure still stands open"),
    }
    let out = e.finalize().unwrap();
    assert_eq!(ranges(&out.structs[0].rng), vec![]);
    assert_eq!(e_counts(&c), (1, 1));
}

fn counts(e: &Encoder) -> [i64; 4] {
    [
        e.err_open_same_str.count,
        e.err_closing_str.count,
        e.err_mismatch_str.count,
        e.err_unterminated.count,
    ]
}

#[test]
fn each_warning_is_counted_once_and_nothing_else_is() {
    let c = conf(&["word"], &[("doc", &[]), ("s", &[])]);
    let mut e = make_encoder(&c);
    assert_eq!(counts(&e), [0, 0, 0, 0]);
    assert_eq!(e.err_open_same_str.name, "structure opened multiple times on same position");
    assert_eq!(e.err_closing_str.name, "closing non opened structure");
    assert_eq!(e.err_mismatch_str.name, "mismatched closing structure");
    assert_eq!(e.err_unterminated.name, "unterminated structure tags");
    let shown = corp::encoder::Notice { show: true, last_shown: false };
    assert_eq!(e.process_line(""), Ok(Event::Skipped));
    assert_eq!(e.process_line("# a comment"), Ok(Event::Skipped));
    assert_eq!(e.process_line("w"), Ok(Event::Token));
    assert_eq!(counts(&e), [0, 0, 0, 0]);
    assert_eq!(e.process_line("</doc>"), Ok(Event::NotOpen { notice: shown }));
    assert_eq!(counts(&e), [0, 1, 0, 0]);
    assert_eq!(e.process_line("<doc>"), Ok(Event::Opened { again: None }));
    assert_eq!(counts(&e), [0, 1, 0, 0]);
    assert_eq!(e.process_line("<doc>"), Ok(Event::Opened { again: Some(shown) }));
    assert_eq!(counts(&e), [1, 1, 0, 0]);
    assert_eq!(e.process_line("</s>"), Ok(Event::Mismatch { notice: shown }));
    assert_eq!(e.process_line("</s>"), Ok(Event::Mismatch { notice: shown }));
    assert_eq!(counts(&e), [1, 1, 2, 0]);
    assert_eq!(e.process_line("v"), Ok(Event::Token));
    assert_eq!(e.process_line("</doc>"), Ok(Event::Closed));
    assert_eq!(counts(&e), [1, 1, 2, 0]);
    assert_eq!(e.end_input(), Ok(Some((1, shown))));
    assert_eq!(counts(&e), [1, 1, 2, 1]);
    let mut quiet = make_encoder(&c);
    assert_eq!(quiet.process_line("w"), Ok(Event::Token));
    assert_eq!(quiet.end_input(), Ok(None));
    assert_eq!(counts(&quiet), [0, 0, 0, 0]);
}

#[test]
fn the_hundredth_warning_of_a_kind_is_the_last_that_is_shown() {
    let c = conf(&["word"], &[("doc", &[])]);
    let mut e = make_encoder(&c);
    for i in 0..102i64 {
        let notice = match e.process_line("</doc>") {
            Ok(Event::NotOpen { notice }) => notice,
            _ => panic!("no structure stands open"),
        };
        assert_eq!(notice.show, i < 100);
        assert_eq!(notice.last_shown, i == 99);
        assert_eq!(e.err_closing_str.count, i + 1);
    }
    assert_eq!(counts(&e), [0, 102, 0, 0]);
}

#[test]
fn structures_are_found_under_their_names() {
    let c = conf(&["word"], &[("doc", &[]), ("s", &["id"]), ("p", &[])]);
    let e = make_encoder(&c);
    assert_eq!(e.find_struct("doc"), Some(0));
    assert_eq!(e.find_struct("s"), Some(1));
    assert_eq!(e.find_struct("p"), Some(2));
    assert_eq!(e.find_struct("word"), None);
    assert_eq!(e.find_struct(""), None);
    // of two structures of one name the later is the one that is found
    let twice = Encoder::new(
        Vec::new(),
        vec![
            StructWriter::new("s", false, Vec::new()),
            StructWriter::new("t", false, Vec::new()),
            StructWriter::new("s", true, Vec::new()),
        ],
    );
    assert_eq!(twice.find_struct("s"), Some(2));
    assert_eq!(twice.find_struct("t"), Some(1));
}

fn e_counts(c: &Block) -> (i64, i64) {
    let mut e = make_encoder(c);
    let _ = e.process_line("</doc>");
    let _ = e.process_line("<doc>");
    let _ = e.process_line("</s>");
    (e.err_closing_str.count, e.err_mismatch_str.count)
}

#[test]
fn warnings_are_shown_a_hundred_times() {
    let mut w = EncErr::new("kind");
    assert_eq!(w.name, "kind");
    assert!(!w.summary());
    for i in 0..100 {
        let n = w.emit();
        assert!(n.show);
        assert_eq!(n.last_shown, i == 99);
    }
    let n = w.emit();
    assert!(!n.show);
    assert!(!n.last_shown);
    assert_eq!(w.count, 101);
    assert!(w.summary());
}

fn start(line: &str) -> (String, Vec<(String, String)>, bool) {
    match parse_tag(line) {
        Some(Tag::Start { name, attrs, self_close }) => {
            let mut pairs = Vec::new();
            for k in ["id", "a", "b", "k", "x y", ""] {
                if let Some(v) = attrs.get(k) {
                    pairs.push((k.to_string(), v.clone()));
                }
            }
            (name, pairs, self_close)
        }
        _ => panic!("a tag that opens is expected"),
    }
}

#[test]
fn tags_are_told_from_tokens() {
    assert!(parse_tag("word").is_none());
    assert!(parse_tag("<").is_none());
    assert!(parse_tag("<>").is_none());
    assert!(parse_tag("< >").is_none());
    assert!(parse_tag("</>").is_none());
    assert!(parse_tag("</ >").is_none());
    assert!(parse_tag("<doc").is_none());
    assert!(parse_tag("doc>").is_none());
    assert!(parse_tag("<//>").is_some());
    match parse_tag("  </doc >  ") {
        Some(Tag::End { name }) => assert_eq!(name, "doc"),
        _ => panic!("a tag that closes is expected"),
    }
    assert_eq!(start("<doc>"), ("doc".to_string(), vec![], false));
    assert_eq!(start("<p/>"), ("p".to_string(), vec![], true));
    assert_eq!(start("< p />"), ("p".to_string(), vec![], true));
    assert_eq!(
        start("<doc id=\"x\">"),
        ("doc".to_string(), vec![("id".to_string(), "x".to_string())], false)
    );
    assert!(parse_tag("</>").is_none());
    assert!(matches!(parse_tag("</x/>"), Some(Tag::End { .. })));
    assert!(matches!(parse_tag("<\u{a0}g\u{2003}/>"), Some(Tag::Start { .. })));
}

fn attrs(s: &str) -> Vec<(String, String)> {
    let m = parse_attrs(s);
    let mut pairs = Vec::new();
    for k in ["id", "a", "b", "k", ""] {
        if let Some(v) = m.get(k) {
            pairs.push((k.to_string(), v.clone()));
        }
    }
    assert_eq!(m.len(), pairs.len());
    pairs
}

fn pair(k: &str, v: &str) -> (String, String) {
    (k.to_string(), v.to_string())
}

#[test]
fn attributes_of_a_tag() {
    assert_eq!(attrs(""), vec![]);
    assert_eq!(attrs("id=x"), vec![pair("id", "x")]);
    assert_eq!(attrs("id = x  a='1 2' b=\"q'r\""), vec![
        pair("id", "x"),
        pair("a", "1 2"),
        pair("b", "q'r")
    ]);
    assert_eq!(attrs("a=1 a=2"), vec![pair("a", "2")]);
    assert_eq!(attrs("a="), vec![pair("a", "")]);
    assert_eq!(attrs("a=\"\" b=2"), vec![pair("a", ""), pair("b", "2")]);
    assert_eq!(attrs("=v"), vec![pair("", "v")]);
    // the reading ends where no attribute follows
    assert_eq!(attrs("a"), vec![]);
    assert_eq!(attrs("a=1 b"), vec![pair("a", "1")]);
    assert_eq!(attrs("a=1 b c=3"), vec![pair("a", "1")]);
    assert_eq!(attrs("a=\"open b=2"), vec![]);
    assert_eq!(attrs("a=1\tb=2"), vec![pair("a", "1"), pair("b", "2")]);
}

#[test]
fn lines_are_split_at_tabs() {
    assert_eq!(split_tabs("a\tb\tc"), vec!["a", "b", "c"]);
    assert_eq!(split_tabs("a"), vec!["a"]);
    assert_eq!(split_tabs(""), vec![""]);
    assert_eq!(split_tabs("a\t\tb\t"), vec!["a", "", "b", ""]);
    assert_eq!(split_tabs("a b\tč"), vec!["a b", "č"]);
}

#[test]
fn white_space_is_trimmed() {
    assert_eq!(trim("  a b \t\r\n"), "a b");
    assert_eq!(trim("\u{a0}\u{3000}x\u{2028}"), "x");
    assert_eq!(trim("   "), "");
    assert_eq!(trim(""), "");
    assert_eq!(trim("x"), "x");
}

#[test]
fn numbers_are_parsed_as_the_standard_does() {
    for s in ["0", "7", "128", "+5", "007", "18446744073709551615", ""] {
        assert_eq!(parse_usize(s), s.parse::<usize>().ok());
    }
    for s in ["+", "-1", " 1", "1 ", "1x", "18446744073709551616", "++1", "1+", "１"] {
        assert_eq!(parse_usize(s), s.parse::<usize>().ok());
        assert_eq!(parse_usize(s), None);
    }
    assert_eq!(parse_usize("128"), Some(128));
}

#[test]
fn settings_of_the_encoder() {
    assert_eq!(segment_size(&block(&[])), 128);
    assert_eq!(segment_size(&block(&[("SEGMENTSIZE", "64")])), 64);
    assert_eq!(segment_size(&block(&[("SEGMENTSIZE", "many")])), 128);
    assert_eq!(default_value(&block(&[])), "===NONE===");
    assert_eq!(default_value(&block(&[("DEFAULTVALUE", "-")])), "-");
    assert!(wide(&block(&[("TYPE", "file64")])));
    assert!(wide(&block(&[("TYPE", "map64")])));
    assert!(!wide(&block(&[("TYPE", "map32")])));
    assert!(!wide(&block(&[])));
    assert_eq!(add_suffix("/a/word", ".lex.idx"), "/a/word.lex.idx");
}

#[test]
fn layout_of_a_text_by_its_type() {
    let mut c = conf(&["a", "b", "c", "d", "e", "f", "g", "h"], &[]);
    for (i, t) in ["MD_MI", "Int", "MD_MGD", "FD_MGD", "FD_FGD", "NoMem", "MD_MD"].iter().enumerate()
    {
        c.attributes[i].1.values.push(value("TYPE", t));
    }
    let expect = [
        TextType::Int,
        TextType::Int,
        TextType::GigaDelta,
        TextType::GigaDelta,
        TextType::GigaDelta,
        TextType::GigaDelta,
        TextType::Delta,
        TextType::Delta,
    ];
    for (i, name) in ["a", "b", "c", "d", "e", "f", "g", "h"].iter().enumerate() {
        assert_eq!(attr_text_type(&c, name), expect[i]);
    }
    assert_eq!(attr_text_type(&c, "none"), TextType::Delta);
}

#[test]
fn an_attribute_in_runs_reads_back_what_was_encoded() {
    let mut c = conf(&["word"], &[]);
    c.attributes[0].1.values.push(value("TYPE", "MD_MGD"));
    let words: Vec<String> = (0..1500).map(|i| format!("w{}", (i * 7) % 300)).collect();
    let out = encode(&c, &words.join("\n"));
    let a = &out.attrs[0];
    let lex = MapLex::open("word", &a.lex.lex, &a.lex.srt, &a.lex.idx).unwrap();
    let t = match &a.text {
        TextFiles::GigaDelta(g) => GigaDelta::open("word", &g.text, &g.seg, &g.off).unwrap(),
        _ => panic!("a text with a two-level index is expected"),
    };
    assert!(t.check());
    assert_eq!(t.size(), 1500);
    assert_eq!(t.offset.len(), 24);
    assert_eq!(t.segment.len(), 2);
    let text = AnyText::GigaDelta(t);
    let mut it = text.posat(0).unwrap();
    for w in &words {
        let id = it.next().unwrap();
        assert_eq!(lex.id2str(id), w.as_bytes());
    }
    assert_eq!(it.next(), None);
    assert_eq!(lex.id2str(text.get(1499)), words[1499].as_bytes());
    let mut from = text.posat(1024).unwrap();
    assert_eq!(lex.id2str(from.next().unwrap()), words[1024].as_bytes());
}

#[test]
fn segment_size_of_the_configuration_is_used() {
    let mut c = conf(&["word"], &[]);
    c.values.push(value("SEGMENTSIZE", "2"));
    let out = encode(&c, "a\nb\nc\nd\ne\n");
    match &out.attrs[0].text {
        TextFiles::Delta(d) => {
            assert_eq!(u32_words(&d.seg).len(), 3 + 1);
            let t = Delta::open("w", &d.text, &d.seg).unwrap();
            assert_eq!(t.segment_size, 2);
            assert!(t.check());
        }
        _ => panic!("a delta text is expected"),
    }
}

#[test]
fn writers_of_parts_work_alone() {
    let mut a = AttrWriter::new("word", TextType::Int, 128, "-".to_string());
    assert!(a.push_value("x", 0).is_ok());
    assert!(a.push_value("y", 1).is_ok());
    assert!(a.push_value("x", 2).is_ok());
    let f = a.finalize().unwrap();
    match f.text {
        TextFiles::Int(t) => assert_eq!(&t[16..], &[0u8, 0, 0, 0, 1, 0, 0, 0, 0, 0, 0, 0]),
        _ => panic!("an array was asked for"),
    }
    let mut sa = StructAttrWriter::new("id", "-".to_string());
    assert_eq!(sa.id_for("v"), Ok(0));
    assert!(sa.push_value(0, 0).is_ok());
    assert!(sa.put("w", 1).is_ok());
    let mut sw = StructWriter::new("doc", false, vec![sa]);
    assert!(sw.write_range(3, 9, &vec!["w".to_string()]).is_ok());
    assert_eq!(sw.count, 1);
    sw.pending_empty_pos = Some(9);
    sw.pending_empty_vals = Some(vec!["z".to_string()]);
    assert!(flush_pending_empty(&mut sw).is_ok());
    assert_eq!(sw.pending_empty_pos, None);
    assert!(flush_pending_empty(&mut sw).is_ok());
    let f = sw.finalize();
    assert_eq!(ranges(&f.rng), vec![(3, 9), (9, 9)]);
    assert_eq!(f.attrs[0].lex.lex, b"v\0w\0z\0".to_vec());
    let e = Encoder::new(Vec::new(), Vec::new());
    assert_eq!(e.find_struct("doc"), None);
    assert_ne!(EncodeError::LexOverflow, EncodeError::CountOverflow);
    assert_ne!(EncodeError::SegmentOverflow, EncodeError::OffsetOverflow);
}
