use corp::conf::Block;
use corp::corp::{
    find_config, get_registry_paths, join_path, open_freq, pick_config, rebase_path, text_kind,
    AnyAttr, Attr, AttrPlan, ConfigSearch, CorpError, Corpus, DynAttr, DynFrequency, FreqPlan, FreqSource,
    Frequency, FromFile32, FromFile64, RevFrequency, StdAttr,
};
use corp::lex::MapLex;
use corp::lexwriter::LexWriter;
use corp::mkrev::{positions_by_id, write_rev_delta, write_rev_dense};
use corp::rev::open as open_rev;
use corp::text::{AnyText, Delta, Text};
use corp::textwriter::{DeltaTextWriter, TextType};
use corp::wsketch::WSLex;

fn value(k: &str, v: &str) -> (String, String) {
    (k.to_string(), v.to_string())
}

fn block(values: &[(&str, &str)]) -> Block {
    let mut b = Block::new();
    for (k, v) in values {
        b.values.push(value(k, v));
    }
    b
}

fn corpus(conf: Block) -> Corpus {
    Corpus::open("/reg/susanne", "/reg", conf).unwrap()
}

#[test]
fn configuration_blocks() {
    let mut b = block(&[("PATH", "/a"), ("PATH", "/b"), ("EMPTY", "")]);
    b.attributes.push(("word".to_string(), block(&[("TYPE", "Int")])));
    b.structures.push(("doc".to_string(), Block::new()));
    assert_eq!(b.value("PATH"), Some("/a"));
    assert_eq!(b.value("EMPTY"), Some(""));
    assert_eq!(b.value("NONE"), None);
    assert_eq!(b.attribute("word").unwrap().value("TYPE"), Some("Int"));
    assert!(b.attribute("doc").is_none());
    assert!(b.structure("doc").is_some());
    assert!(b.structure("word").is_none());
}

#[test]
fn corpus_path_ends_with_one_slash() {
    assert_eq!(corpus(block(&[("PATH", "/data/c")])).path, "/data/c/");
    assert_eq!(corpus(block(&[("PATH", "/data/c///")])).path, "/data/c/");
    assert_eq!(corpus(block(&[("PATH", "./c")])).path, "/reg/./c/");
    assert_eq!(corpus(block(&[("PATH", "/")])).path, "/");
    let c = corpus(block(&[("PATH", "/data/c")]));
    assert_eq!(c.name, "/reg/susanne");
    assert_eq!(c.dir, "/reg");
    assert!(matches!(
        Corpus::open("/reg/x", "/reg", Block::new()),
        Err(CorpError::AttrNotFound)
    ));
}

#[test]
fn paths_are_rebased_against_the_configuration() {
    assert_eq!(rebase_path("/reg", "./data"), "/reg/./data");
    assert_eq!(rebase_path("/reg/", "../data"), "/reg/../data");
    assert_eq!(rebase_path("/reg", "/abs"), "/abs");
    assert_eq!(rebase_path("/reg", "rel"), "rel");
    assert_eq!(rebase_path("/reg", ""), "");
    assert_eq!(corpus(block(&[("PATH", "/d")])).rebase_path(".x"), "/reg/.x");
    assert_eq!(join_path("/a", "b"), "/a/b");
    assert_eq!(join_path("/a/", "b"), "/a/b");
    assert_eq!(join_path("/a", ""), "/a/");
}

#[test]
fn the_first_candidate_that_is_present_is_the_configuration() {
    let c = match find_config("susanne", "/a:/b") {
        ConfigSearch::Candidates(c) => c,
        _ => panic!("the name is one of a registry"),
    };
    assert_eq!(pick_config(&c, &vec![false, true, true]), Ok("/b/susanne".to_string()));
    assert_eq!(pick_config(&c, &vec![true, false, true]), Ok("/a/susanne".to_string()));
    assert_eq!(
        pick_config(&c, &vec![false, false, true]),
        Ok("/corpora/registry/susanne".to_string())
    );
    assert_eq!(pick_config(&c, &vec![false, false, false]), Err(CorpError::ConfigNotFound));
    assert_eq!(pick_config(&vec![], &vec![]), Err(CorpError::ConfigNotFound));
}

#[test]
fn a_search_settles_on_the_path_or_on_the_first_file_there_is() {
    let named = find_config("susanne", "/a:/b");
    assert_eq!(named.settle(&vec![false, true, false]), Ok("/b/susanne".to_string()));
    assert_eq!(named.settle(&vec![false, false, false]), Err(CorpError::ConfigNotFound));
    let given = find_config("./susanne", "/a:/b");
    assert_eq!(given.settle(&vec![]), Ok("./susanne".to_string()));
    assert_eq!(given.settle(&vec![false]), Ok("./susanne".to_string()));
    let root = find_config("/x/susanne", "");
    assert_eq!(root.settle(&vec![]), Ok("/x/susanne".to_string()));
}

#[test]
fn registries_are_searched_in_their_order() {
    assert_eq!(get_registry_paths(""), vec!["/corpora/registry/"]);
    assert_eq!(get_registry_paths("/a:/b"), vec!["/a", "/b", "/corpora/registry/"]);
    assert_eq!(get_registry_paths(":/a::/b/:"), vec!["/a", "/b/", "/corpora/registry/"]);
    match find_config("susanne", "/a:/b/") {
        ConfigSearch::Candidates(c) => {
            assert_eq!(c, vec!["/a/susanne", "/b/susanne", "/corpora/registry/susanne"])
        }
        _ => panic!("the name is one of a registry"),
    }
    match find_config("./susanne", "/a") {
        ConfigSearch::Given(p) => assert_eq!(p, "./susanne"),
        _ => panic!("the name is a path"),
    }
    match find_config("/x/susanne", "/a") {
        ConfigSearch::Given(p) => assert_eq!(p, "/x/susanne"),
        _ => panic!("the name is a path"),
    }
    assert!(matches!(find_config("", ""), ConfigSearch::Candidates(_)));
}

#[test]
fn settings_fall_back() {
    let c = corpus(block(&[("PATH", "/d")]));
    assert_eq!(c.get_conf("PATH"), Some("/d".to_string()));
    assert_eq!(c.get_conf("DEFAULTATTR"), Some("word".to_string()));
    assert_eq!(c.get_conf("WSATTR"), Some("word".to_string()));
    assert_eq!(c.get_conf("WSBASE"), Some("/d/word-ws".to_string()));
    assert_eq!(c.get_conf("OTHER"), None);

    let mut b = block(&[("PATH", "./d"), ("DEFAULTATTR", "lc"), ("WSATTR", "")]);
    b.attributes.push(("lemma".to_string(), Block::new()));
    b.attributes.push(("lempos".to_string(), Block::new()));
    let c = corpus(b);
    assert_eq!(c.get_conf("DEFAULTATTR"), Some("lc".to_string()));
    assert_eq!(c.get_conf("WSATTR"), Some("lempos".to_string()));
    assert_eq!(c.get_conf("WSBASE"), Some("/reg/./d/lempos-ws".to_string()));

    let c = corpus(block(&[("PATH", "/d"), ("DEFAULTATTR", "lc"), ("WSBASE", "/ws/base")]));
    assert_eq!(c.get_conf("WSATTR"), Some("lc".to_string()));
    assert_eq!(c.get_conf("WSBASE"), Some("/ws/base".to_string()));
}

#[test]
fn attributes_are_planned_from_the_configuration() {
    let mut b = block(&[("PATH", "/d")]);
    b.attributes.push(("word".to_string(), Block::new()));
    b.attributes.push(("tag".to_string(), block(&[("TYPE", "FD_FGD")])));
    b.attributes.push(("odd".to_string(), block(&[("TYPE", "XX")])));
    b.attributes.push((
        "lc".to_string(),
        block(&[("DYNAMIC", "lowercase"), ("FROMATTR", "word")]),
    ));
    b.attributes.push(("bad".to_string(), block(&[("DYNAMIC", "x")])));
    let mut doc = Block::new();
    doc.attributes.push(("id".to_string(), Block::new()));
    doc.attributes.push((
        "year".to_string(),
        block(&[("DYNAMIC", "y"), ("FROMATTR", "id")]),
    ));
    b.structures.push(("doc".to_string(), doc));
    b.structures.push(("big".to_string(), block(&[("TYPE", "map64")])));
    let c = corpus(b);
    match c.open_attribute("word") {
        Ok(AttrPlan::Std { path, text_type }) => {
            assert_eq!(path, "/d//word");
            assert_eq!(text_type, TextType::Delta);
        }
        _ => panic!("the attribute is declared"),
    }
    assert!(matches!(
        c.open_attribute("tag"),
        Ok(AttrPlan::Std { text_type: TextType::GigaDelta, .. })
    ));
    assert!(matches!(
        c.open_attribute("doc.id"),
        Ok(AttrPlan::Std { text_type: TextType::Int, .. })
    ));
    match c.open_attribute("lc") {
        Ok(AttrPlan::Dyn { path, fromattr }) => {
            assert_eq!(path, "/d//lc");
            assert_eq!(fromattr, "word");
        }
        _ => panic!("the attribute is dynamic"),
    }
    match c.open_attribute("doc.year") {
        Ok(AttrPlan::Dyn { fromattr, .. }) => assert_eq!(fromattr, "doc.id"),
        _ => panic!("the attribute is dynamic"),
    }
    for name in ["odd", "bad", "none", "doc.none", "none.id", "word.x"] {
        assert!(matches!(c.open_attribute(name), Err(CorpError::AttrNotFound)));
    }
    let p = c.open_struct("doc").unwrap();
    assert_eq!(p.path, "/d//doc");
    assert!(!p.type64);
    assert!(c.open_struct("big").unwrap().type64);
    assert!(matches!(c.open_struct("word"), Err(CorpError::AttrNotFound)));
    assert_eq!(c.open_structtext("doc", "id"), "/d//doc.id");
}

#[test]
fn kinds_of_text() {
    for code in ["MD_MD", "FD_FD", "FD_MD"] {
        assert_eq!(text_kind(code), Ok(TextType::Delta));
    }
    for code in ["MD_MGD", "FD_FGD", "FD_MGD", "NoMem"] {
        assert_eq!(text_kind(code), Ok(TextType::GigaDelta));
    }
    assert_eq!(text_kind("Int"), Ok(TextType::Int));
    assert_eq!(text_kind("MD_MI"), Err(CorpError::AttrNotFound));
    assert_eq!(text_kind(""), Err(CorpError::AttrNotFound));
}

#[test]
fn frequencies_are_planned_by_kind() {
    match open_freq("/d/word", "frq") {
        Ok(FreqPlan::FrqOr64 { frq64, frq }) => {
            assert_eq!(frq64, "/d/word.frq64");
            assert_eq!(frq, "/d/word.frq");
        }
        _ => panic!("the kind is known"),
    }
    match open_freq("/d/word", "docf:l") {
        Ok(FreqPlan::Long(p)) => assert_eq!(p, "/d/word.docf"),
        _ => panic!("the kind is known"),
    }
    assert!(matches!(open_freq("/d/word", "docf:l:x"), Ok(FreqPlan::Long(_))));
    for kind in ["docf", "docf:i", "docf:", "", ":"] {
        assert!(matches!(open_freq("/d/word", kind), Err(CorpError::BadFrequencyType)));
    }
    let f = FromFile32::open(&[1, 0, 0, 0, 2, 1, 0, 0]);
    assert_eq!(f.at(1), 258);
    assert_eq!(f.frq(0), 1);
    let g = FromFile64::open(&[1, 0, 0, 0, 0, 0, 0, 1]);
    assert_eq!(g.at(0), (1 << 56) + 1);
    assert_eq!(g.frq(0), (1 << 56) + 1);
}

fn lexicon(values: &[&str]) -> MapLex {
    let mut w = LexWriter::new();
    for v in values {
        assert!(w.id_for(v).is_ok());
    }
    let f = w.finalize();
    MapLex::open("lex", &f.lex, &f.srt, &f.idx).unwrap()
}

fn std_attr(tokens: &[&str]) -> AnyAttr {
    let mut lw = LexWriter::new();
    let mut tw = DeltaTextWriter::new(4);
    for t in tokens {
        let id = lw.id_for(t).unwrap();
        assert!(tw.push(id).is_ok());
    }
    let lf = lw.finalize();
    let tf = tw.finalize().unwrap();
    let text = AnyText::Delta(Delta::open("word", &tf.text, &tf.seg).unwrap());
    let rf = write_rev_dense(&positions_by_id(&text)).unwrap();
    AnyAttr::Std(StdAttr {
        path: "/d//word".to_string(),
        name: "word".to_string(),
        conf: Block::new(),
        lex: MapLex::open("word", &lf.lex, &lf.srt, &lf.idx).unwrap(),
        text,
        rev: open_rev(&rf.rev, &rf.idx0, &rf.idx1).unwrap(),
    })
}

fn ids_from(a: &AnyAttr, from: u64) -> Vec<u32> {
    let mut it = a.iter_ids(from);
    let mut out = Vec::new();
    while let Some(id) = it.next() {
        out.push(id);
    }
    out
}

#[test]
fn an_attribute_joins_lexicon_text_and_reverse_index() {
    let a = std_attr(&["The", "cat", "the", "Cat", "the"]);
    assert_eq!(a.size(), 5);
    assert_eq!(a.id_range(), 4);
    assert_eq!(ids_from(&a, 0), vec![0, 1, 2, 3, 2]);
    assert_eq!(ids_from(&a, 3), vec![3, 2]);
    assert_eq!(a.get(2), 2);
    assert_eq!(a.id2str(1), b"cat");
    assert_eq!(a.str2id("Cat"), Some(3));
    assert_eq!(a.str2id("dog"), None);
    assert_eq!(a.frq(2), 2);
    assert_eq!(a.frq(0), 1);
    assert_eq!(Attr::size(&a), 5);
    assert_eq!(Attr::get(&a, 4), 2);
    for p in 0..5u64 {
        let id = a.get(p);
        let s = a.id2str(id).to_vec();
        assert_eq!(a.lex().bytes2id(&s), Some(id));
    }
    match a.get_freq("frq") {
        Ok(FreqSource::Rev(f)) => assert_eq!(f.frq(2), 2),
        _ => panic!("the reverse index counts"),
    }
    match a.get_freq("docf:l") {
        Ok(FreqSource::File(FreqPlan::Long(p))) => assert_eq!(p, "/d//word.docf"),
        _ => panic!("a file of 64-bit numbers is named"),
    }
    match a.get_freq("arf:l:more") {
        Ok(FreqSource::File(FreqPlan::Long(p))) => assert_eq!(p, "/d//word.arf"),
        _ => panic!("a file of 64-bit numbers is named"),
    }
    assert!(matches!(a.get_freq("docf"), Err(CorpError::BadFrequencyType)));
    assert!(matches!(a.get_freq("docf:s"), Err(CorpError::BadFrequencyType)));
    assert!(matches!(a.get_freq("frq:x"), Err(CorpError::BadFrequencyType)));
    assert!(matches!(a.get_freq(""), Err(CorpError::BadFrequencyType)));
}

#[test]
fn frequencies_of_a_dynamic_attribute_by_kind() {
    let d = dyn_attr();
    match d.get_freq("docf:l") {
        Ok(FreqSource::File(FreqPlan::Long(p))) => assert_eq!(p, "/d//lc.docf"),
        _ => panic!("a file of 64-bit numbers is named"),
    }
    assert!(matches!(d.get_freq("frq"), Ok(FreqSource::Dyn(_))));
    assert!(matches!(d.get_freq("norm"), Err(CorpError::BadFrequencyType)));
}

fn dyn_attr() -> AnyAttr {
    let base = std_attr(&["The", "cat", "the", "Cat", "the"]);
    // lower case: The, the -> 0 (the); cat, Cat -> 1 (cat)
    let ridx = vec![0u32, 1, 0, 1];
    let lrev = write_rev_delta(&vec![vec![0u32, 2], vec![1, 3]]).unwrap();
    AnyAttr::Dyn(DynAttr {
        path: "/d//lc".to_string(),
        name: "lc".to_string(),
        conf: Block::new(),
        lex: lexicon(&["the", "cat"]),
        fromattr: Box::new(base),
        ridx,
        lrev: open_rev(&lrev.rev, &lrev.idx, &lrev.cnt).unwrap(),
    })
}

#[test]
fn a_dynamic_attribute_translates_the_ids_of_another() {
    let d = dyn_attr();
    assert_eq!(d.size(), 5);
    assert_eq!(d.id_range(), 2);
    assert_eq!(ids_from(&d, 0), vec![0, 1, 0, 1, 0]);
    assert_eq!(ids_from(&d, 2), vec![0, 1, 0]);
    assert_eq!(d.get(3), 1);
    assert_eq!(d.id2str(0), b"the");
    assert_eq!(d.str2id("cat"), Some(1));
    // the frequency of "the" is that of "The" and of "the"
    assert_eq!(d.frq(0), 1 + 2);
    assert_eq!(d.frq(1), 1 + 1);
    match &d {
        AnyAttr::Dyn(da) => {
            assert_eq!(Frequency::frq(da, 0), 3);
            assert_eq!(DynFrequency { da }.frq(1), 2);
            assert_eq!(Text::size(da), 5);
            assert_eq!(Text::get(da, 0), 0);
            assert!(da.posat(0).is_none());
            assert!(da.structat(0).is_none());
            match &*da.fromattr {
                AnyAttr::Std(a) => {
                    assert_eq!(Frequency::frq(a, 2), 2);
                    assert_eq!(RevFrequency { a }.frq(1), 1);
                }
                _ => panic!("the attribute stands over a plain one"),
            }
        }
        _ => panic!("the attribute is dynamic"),
    }
    assert!(matches!(d.get_freq("frq"), Ok(FreqSource::Dyn(_))));
    // the reverse index over positions is that of the attribute below
    assert!(std::ptr::eq(d.revidx(), match &d {
        AnyAttr::Dyn(da) => da.fromattr.revidx(),
        AnyAttr::Std(a) => &a.rev,
    }));
}

#[test]
fn lexicons_of_a_word_sketch() {
    let a = std_attr(&["cat", "dog"]);
    let ws = WSLex::open(lexicon(&["subject", "object"]), Some(lexicon(&["x", "y", "z", "w"])), &a);
    assert_eq!(ws.id2head(1), b"dog");
    assert_eq!(ws.head2id("cat"), Some(0));
    assert_eq!(ws.head2id("cow"), None);
    assert_eq!(ws.id2rel(1), b"object");
    assert_eq!(ws.rel2id("subject"), Some(0));
    assert_eq!(ws.coll2id("dog"), 1);
    assert_eq!(ws.coll2id("w"), 3 - 2);
    assert_eq!(ws.id2coll(1), b"dog");
    assert_eq!(ws.id2coll(3), b"y");
}
