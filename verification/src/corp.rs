//! A corpus as its configuration describes it: where its files lie, which
//! attributes and structures it has, and of which kind they are.

use vstd::prelude::*;
use vstd::string::StringSliceAdditionalSpecFns;
use crate::conf::Block;
use crate::lex::MapLex;
use crate::rev::{AnyRev, Rev, RevIter};
use crate::text::{AnyText, IntIter, StreamIter, Text};
use crate::strs::{
    chars_of,
    find_char,
    find_char_in,
    join2,
    lemma_find_char_bounds,
    part,
    same_str,
    texts,
};
use crate::textwriter::TextType;

verus! {

/// Why a part of a corpus cannot be opened.
#[derive(Debug, Clone, Copy, PartialEq, Eq, Structural)]
pub enum CorpError {
    /// The configuration does not have what is asked for: an attribute, a
    /// structure, a value that is needed, or a known kind of text.
    AttrNotFound,
    /// A kind of frequency that is not known.
    BadFrequencyType,
    /// No registry has a configuration of the name.
    ConfigNotFound,
}

/// Registry that is searched behind those that are named.
pub open spec fn fallback_registry() -> Seq<char> {
    "/corpora/registry/"@
}

/// A path under a directory: the two with a `/` between them, unless the
/// directory ends with one.
pub open spec fn joined(dir: Seq<char>, name: Seq<char>) -> Seq<char> {
    if dir.len() > 0 && dir[dir.len() - 1] == '/' {
        dir + name
    } else {
        dir + seq!['/'] + name
    }
}

/// A path under a directory.
pub fn join_path(dir: &str, name: &str) -> (r: String)
    ensures
        r@ == joined(dir@, name@),
{
    let v = chars_of(dir);
    proof {
        reveal_strlit("/");
        assert("/"@ =~= seq!['/']);
    }
    if v.len() > 0 && v[v.len() - 1] == '/' {
        join2(dir, name)
    } else {
        let d: String = join2(dir, "/");
        join2(d.as_str(), name)
    }
}

/// A path of the configuration as it is meant: one that opens with `.`
/// lies under the directory of the configuration file; any other is taken
/// as it stands.
pub open spec fn rebased(conf_dir: Seq<char>, path: Seq<char>) -> Seq<char> {
    if path.len() > 0 && path[0] == '.' {
        joined(conf_dir, path)
    } else {
        path
    }
}

/// A path of the configuration as it is meant, `conf_dir` being the
/// directory in which the configuration file lies.
pub fn rebase_path(conf_dir: &str, path: &str) -> (r: String)
    ensures
        r@ == rebased(conf_dir@, path@),
{
    let v = chars_of(path);
    if v.len() > 0 && v[0] == '.' {
        join_path(conf_dir, path)
    } else {
        path.to_owned()
    }
}

/// The pieces of a list between its `:`, from character `i` on, without
/// the empty ones.
pub open spec fn pieces_from(s: Seq<char>, i: int) -> Seq<Seq<char>>
    decreases s.len() - i,
{
    let t = find_char(s, i, ':');
    if i < 0 || i >= s.len() {
        Seq::empty()
    } else if t == i {
        pieces_from(s, t + 1)
    } else if t >= s.len() {
        seq![s.subrange(i, s.len() as int)]
    } else {
        proof {
            lemma_find_char_bounds(s, i, ':');
        }
        seq![s.subrange(i, t)] + pieces_from(s, t + 1)
    }
}

/// The registries in which a corpus is searched: those that the list
/// names between its `:`, and behind them `/corpora/registry/`.
pub open spec fn registries(list: Seq<char>) -> Seq<Seq<char>> {
    pieces_from(list, 0).push(fallback_registry())
}

/// The registries in which a corpus is searched, from the list that the
/// environment gives.
pub fn get_registry_paths(list: &str) -> (paths: Vec<String>)
    ensures
        texts(paths@) == registries(list@),
{
    let v = chars_of(list);
    let mut paths: Vec<String> = Vec::new();
    let mut i: usize = 0;
    while i < v.len()
        invariant
            i <= v@.len(),
            v@ == list@,
            pieces_from(list@, 0) == texts(paths@) + pieces_from(list@, i as int),
        decreases v@.len() - i,
    {
        let t: usize = find_char_in(&v, i, ':');
        let ghost before = texts(paths@);
        if t > i {
            paths.push(part(list, i, t));
            assert(texts(paths@) =~= before + seq![list@.subrange(i as int, t as int)]);
            if t < v.len() {
                assert(before + (seq![list@.subrange(i as int, t as int)] + pieces_from(
                    list@,
                    t + 1,
                )) =~= texts(paths@) + pieces_from(list@, t + 1));
            }
        }
        if t >= v.len() {
            assert(pieces_from(list@, v@.len() as int) =~= Seq::<Seq<char>>::empty());
            assert(texts(paths@) =~= before + seq![list@.subrange(i as int, t as int)]);
            i = v.len();
        } else {
            i = t + 1;
        }
    }
    let ghost before = texts(paths@);
    paths.push("/corpora/registry/".to_owned());
    assert(texts(paths@) =~= before.push(fallback_registry()));
    paths
}

/// Where the configuration of a corpus is looked for.
#[derive(Debug)]
pub enum ConfigSearch {
    /// The name is a path, and the configuration is the file there.
    Given(String),
    /// The name is one of a registry: the configuration is the first of
    /// these files that there is.
    Candidates(Vec<String>),
}

/// Where the configuration of the corpus `corpname` is looked for. A name
/// that opens with `.` or `/` is the path of the file; any other names a
/// file in one of the registries, which are searched in their order.
pub fn find_config(corpname: &str, registry: &str) -> (r: ConfigSearch)
    ensures
        corpname@.len() > 0 && (corpname@[0] == '.' || corpname@[0] == '/') ==> (r matches ConfigSearch::Given(
            p,
        ) && p@ == corpname@),
        !(corpname@.len() > 0 && (corpname@[0] == '.' || corpname@[0] == '/')) ==> (r matches ConfigSearch::Candidates(
            c,
        ) && c@.len() == registries(registry@).len() && forall|k: int|
            0 <= k < c@.len() ==> (#[trigger] c@[k])@ == joined(registries(registry@)[k], corpname@)),
{
    let v = chars_of(corpname);
    if v.len() > 0 && (v[0] == '.' || v[0] == '/') {
        return ConfigSearch::Given(corpname.to_owned());
    }
    let paths = get_registry_paths(registry);
    let mut c: Vec<String> = Vec::new();
    let mut k: usize = 0;
    while k < paths.len()
        invariant
            k <= paths@.len(),
            c@.len() == k,
            texts(paths@) == registries(registry@),
            forall|j: int| 0 <= j < k ==> (#[trigger] c@[j])@ == joined(paths@[j]@, corpname@),
        decreases paths@.len() - k,
    {
        c.push(join_path(paths[k].as_str(), corpname));
        k += 1;
    }
    proof {
        assert forall|j: int| 0 <= j < c@.len() implies (#[trigger] c@[j])@ == joined(
            registries(registry@)[j],
            corpname@,
        ) by {
            assert(texts(paths@)[j] == paths@[j]@);
        }
    }
    ConfigSearch::Candidates(c)
}

/// The configuration among the candidates of a search: the first that
/// is present, where `present` says of each candidate whether its file is
/// there. `ConfigNotFound` if and only if none is.
pub fn pick_config(candidates: &Vec<String>, present: &Vec<bool>) -> (r: Result<String, CorpError>)
    requires
        present@.len() == candidates@.len(),
    ensures
        r is Err <==> forall|k: int| 0 <= k < present@.len() ==> !#[trigger] present@[k],
        r matches Err(e) ==> e == CorpError::ConfigNotFound,
        r matches Ok(p) ==> exists|k: int|
            0 <= k < present@.len() && #[trigger] present@[k] && p@ == candidates@[k]@ && forall|
                j: int,
            | 0 <= j < k ==> !#[trigger] present@[j],
{
    let mut k: usize = 0;
    while k < present.len()
        invariant
            k <= present@.len(),
            present@.len() == candidates@.len(),
            forall|j: int| 0 <= j < k ==> !#[trigger] present@[j],
        decreases present@.len() - k,
    {
        if present[k] {
            let p: String = candidates[k].as_str().to_owned();
            assert(present@[k as int] && p@ == candidates@[k as int]@);
            return Ok(p);
        }
        k += 1;
    }
    Err(CorpError::ConfigNotFound)
}

impl ConfigSearch {
    /// Number of files of which the search needs to know whether they
    /// are there: none for a path, else that of the candidates.
    pub open spec fn asks(&self) -> nat {
        match self {
            ConfigSearch::Given(_) => 0,
            ConfigSearch::Candidates(c) => c@.len(),
        }
    }

    /// The configuration that the search ends with: the path that was
    /// given, whatever files there are; else the first candidate that is
    /// present, or `ConfigNotFound` if and only if none is.
    pub fn settle(&self, present: &Vec<bool>) -> (r: Result<String, CorpError>)
        requires
            self is Candidates ==> present@.len() == self.asks(),
        ensures
            self matches ConfigSearch::Given(p) ==> (r matches Ok(q) && q@ == p@),
            self matches ConfigSearch::Candidates(c) ==> {
                &&& r is Err <==> forall|k: int| 0 <= k < present@.len() ==> !#[trigger] present@[k]
                &&& r matches Err(e) ==> e == CorpError::ConfigNotFound
                &&& r matches Ok(p) ==> exists|k: int|
                    0 <= k < present@.len() && #[trigger] present@[k] && p@ == c@[k]@ && forall|
                        j: int,
                    | 0 <= j < k ==> !#[trigger] present@[j]
            },
    {
        match self {
            ConfigSearch::Given(p) => Ok(p.as_str().to_owned()),
            ConfigSearch::Candidates(c) => pick_config(c, present),
        }
    }
}

/// A string without the `/` at its end, however many there are.
pub open spec fn without_slashes(s: Seq<char>) -> Seq<char>
    decreases s.len(),
{
    if s.len() > 0 && s[s.len() - 1] == '/' {
        without_slashes(s.drop_last())
    } else {
        s
    }
}

fn trim_slashes(s: &str) -> (r: String)
    ensures
        r@ == without_slashes(s@),
{
    let v = chars_of(s);
    let mut n: usize = v.len();
    assert(s@.subrange(0, n as int) =~= s@);
    while n > 0 && v[n - 1] == '/'
        invariant
            n <= v@.len(),
            v@ == s@,
            without_slashes(s@) == without_slashes(s@.subrange(0, n as int)),
        decreases n,
    {
        assert(s@.subrange(0, n as int).drop_last() =~= s@.subrange(0, n - 1));
        n -= 1;
    }
    part(s, 0, n)
}

/// A corpus: its configuration, and the directory of its files.
#[derive(Debug)]
pub struct Corpus {
    /// The directory of the files of the corpus, with a `/` at its end.
    pub path: String,
    /// The path of the configuration file.
    pub name: String,
    pub conf: Block,
    /// The directory in which the configuration file lies.
    pub dir: String,
}

/// Whether a name has a `.` in it, as the attribute of a structure has.
pub open spec fn is_dotted(name: Seq<char>) -> bool {
    find_char(name, 0, '.') < name.len()
}

/// The part of a name before its first `.`.
pub open spec fn before_dot(name: Seq<char>) -> Seq<char> {
    name.subrange(0, find_char(name, 0, '.'))
}

/// The part of a dotted name between its first `.` and its second, or
/// its end.
pub open spec fn after_dot(name: Seq<char>) -> Seq<char> {
    let d = find_char(name, 0, '.');
    name.subrange(d + 1, find_char(name, d + 1, '.'))
}

/// The block of the attribute that a name names: for a dotted name the
/// attribute of the structure before the `.`, else the attribute of the
/// corpus.
pub open spec fn attr_block(conf: &Block, name: Seq<char>) -> Option<Block> {
    if is_dotted(name) {
        if conf.has_structure(before_dot(name)) && conf.structure_of(
            before_dot(name),
        ).has_attribute(after_dot(name)) {
            Some(conf.structure_of(before_dot(name)).attribute_of(after_dot(name)))
        } else {
            None
        }
    } else if conf.has_attribute(name) {
        Some(conf.attribute_of(name))
    } else {
        None
    }
}

/// The layout of a text of type `code`: a stream with a segment index
/// for `MD_MD`, `FD_FD` and `FD_MD`; one with a two-level index for
/// `MD_MGD`, `FD_FGD`, `FD_MGD` and `NoMem`; an array for `Int`; none for
/// any other.
pub open spec fn kind_of(code: Seq<char>) -> Option<TextType> {
    if code == "MD_MD"@ || code == "FD_FD"@ || code == "FD_MD"@ {
        Some(TextType::Delta)
    } else if code == "MD_MGD"@ || code == "FD_FGD"@ || code == "FD_MGD"@ || code == "NoMem"@ {
        Some(TextType::GigaDelta)
    } else if code == "Int"@ {
        Some(TextType::Int)
    } else {
        None
    }
}

/// The layout of a text of type `code`.
pub fn text_kind(code: &str) -> (r: Result<TextType, CorpError>)
    ensures
        match kind_of(code@) {
            Some(t) => r == Ok::<TextType, CorpError>(t),
            None => r == Err::<TextType, CorpError>(CorpError::AttrNotFound),
        },
{
    if same_str(code, "MD_MD") || same_str(code, "FD_FD") || same_str(code, "FD_MD") {
        Ok(TextType::Delta)
    } else if same_str(code, "MD_MGD") || same_str(code, "FD_FGD") || same_str(code, "FD_MGD")
        || same_str(code, "NoMem") {
        Ok(TextType::GigaDelta)
    } else if same_str(code, "Int") {
        Ok(TextType::Int)
    } else {
        Err(CorpError::AttrNotFound)
    }
}

/// What is to be opened for an attribute.
#[derive(Debug)]
pub enum AttrPlan {
    /// A lexicon, a text of the given layout and a reverse index, all
    /// under `path`.
    Std { path: String, text_type: TextType },
    /// A lexicon, a translation of ids and a reverse index under `path`,
    /// over the attribute `fromattr`.
    Dyn { path: String, fromattr: String },
}

/// What is to be opened for a structure: the ranges under `path`, of
/// 64-bit pairs where `type64` is set.
#[derive(Debug)]
pub struct StructPlan {
    pub path: String,
    pub type64: bool,
}

/// The type of the text of an attribute: its `TYPE`, or `Int` for the
/// attribute of a structure and `MD_MD` for any other.
pub open spec fn type_code(block: &Block, name: Seq<char>) -> Seq<char> {
    match block.value_of("TYPE"@) {
        Some(v) => v,
        None => if is_dotted(name) {
            "Int"@
        } else {
            "MD_MD"@
        },
    }
}

/// The attribute over which a dynamic attribute stands: its `FROMATTR`,
/// behind the name of the structure for the attribute of a structure.
pub open spec fn from_name(name: Seq<char>, fromattr: Seq<char>) -> Seq<char> {
    if is_dotted(name) {
        before_dot(name) + seq!['.'] + fromattr
    } else {
        fromattr
    }
}

impl Corpus {
    /// The path under which the files of `name` lie: the directory of
    /// the corpus, a `/`, and the name.
    pub open spec fn path_of(&self, name: Seq<char>) -> Seq<char> {
        self.path@ + seq!['/'] + name
    }

    /// A corpus from its configuration: `Ok` if and only if the
    /// configuration gives a `PATH`. The directory of the corpus is that
    /// path as it is meant, with one `/` at its end.
    pub fn open(conf_filename: &str, conf_dir: &str, conf: Block) -> (r: Result<Corpus, CorpError>)
        ensures
            r is Ok <==> conf.value_of("PATH"@) is Some,
            r matches Err(e) ==> e == CorpError::AttrNotFound,
            r matches Ok(c) ==> {
                &&& c.conf == conf
                &&& c.name@ == conf_filename@
                &&& c.dir@ == conf_dir@
                &&& c.path@ == without_slashes(rebased(conf_dir@, conf.value_of("PATH"@)->0))
                    + seq!['/']
            },
    {
        let path: String = match conf.value("PATH") {
            Some(p) => rebase_path(conf_dir, p),
            None => {
                return Err(CorpError::AttrNotFound);
            },
        };
        let trimmed: String = trim_slashes(path.as_str());
        proof {
            reveal_strlit("/");
            assert("/"@ =~= seq!['/']);
        }
        let path: String = join2(trimmed.as_str(), "/");
        Ok(Corpus { path, name: conf_filename.to_owned(), conf, dir: conf_dir.to_owned() })
    }

    /// A path of the configuration as it is meant.
    pub fn rebase_path(&self, path: &str) -> (r: String)
        ensures
            r@ == rebased(self.dir@, path@),
    {
        rebase_path(self.dir.as_str(), path)
    }

    fn file_path(&self, name: &str) -> (r: String)
        ensures
            r@ == self.path_of(name@),
    {
        proof {
            reveal_strlit("/");
            assert("/"@ =~= seq!['/']);
        }
        let p: String = join2(self.path.as_str(), "/");
        join2(p.as_str(), name)
    }

    /// What is to be opened for the attribute `name`. It is not found
    /// where the configuration does not declare it, where it is dynamic and
    /// names no attribute to stand over, and where it is not dynamic and
    /// the type of its text is not known.
    #[verifier::rlimit(50)]
    pub fn open_attribute(&self, name: &str) -> (r: Result<AttrPlan, CorpError>)
        ensures
            r matches Err(e) ==> e == CorpError::AttrNotFound,
            match attr_block(&self.conf, name@) {
                None => r is Err,
                Some(block) => if block.value_of("DYNAMIC"@) is Some {
                    match block.value_of("FROMATTR"@) {
                        None => r is Err,
                        Some(f) => r matches Ok(AttrPlan::Dyn { path, fromattr }) && path@
                            == self.path_of(name@) && fromattr@ == from_name(name@, f),
                    }
                } else {
                    match kind_of(type_code(&block, name@)) {
                        None => r is Err,
                        Some(t) => r matches Ok(AttrPlan::Std { path, text_type }) && path@
                            == self.path_of(name@) && text_type == t,
                    }
                },
            },
    {
        let v = chars_of(name);
        let d: usize = find_char_in(&v, 0, '.');
        let dotted: bool = d < v.len();
        let attrconf: &Block = if dotted {
            let d2: usize = find_char_in(&v, d + 1, '.');
            let first: String = part(name, 0, d);
            let second: String = part(name, d + 1, d2);
            let structconf: &Block = match self.conf.structure(first.as_str()) {
                Some(b) => b,
                None => {
                    return Err(CorpError::AttrNotFound);
                },
            };
            match structconf.attribute(second.as_str()) {
                Some(b) => b,
                None => {
                    return Err(CorpError::AttrNotFound);
                },
            }
        } else {
            match self.conf.attribute(name) {
                Some(b) => b,
                None => {
                    return Err(CorpError::AttrNotFound);
                },
            }
        };
        let path: String = self.file_path(name);
        if attrconf.value("DYNAMIC").is_some() {
            let fromattrname: &str = match attrconf.value("FROMATTR") {
                Some(f) => f,
                None => {
                    return Err(CorpError::AttrNotFound);
                },
            };
            let fromattr: String = if dotted {
                proof {
                    reveal_strlit(".");
                    assert("."@ =~= seq!['.']);
                }
                let first: String = part(name, 0, d);
                let p: String = join2(first.as_str(), ".");
                join2(p.as_str(), fromattrname)
            } else {
                fromattrname.to_owned()
            };
            Ok(AttrPlan::Dyn { path, fromattr })
        } else {
            let code: &str = match attrconf.value("TYPE") {
                Some(t) => t,
                None => if dotted {
                    "Int"
                } else {
                    "MD_MD"
                },
            };
            match text_kind(code) {
                Ok(text_type) => Ok(AttrPlan::Std { path, text_type }),
                Err(e) => Err(e),
            }
        }
    }

    /// What is to be opened for the structure `name`; not found where
    /// the configuration does not declare it.
    pub fn open_struct(&self, name: &str) -> (r: Result<StructPlan, CorpError>)
        ensures
            r is Ok <==> self.conf.has_structure(name@),
            r matches Err(e) ==> e == CorpError::AttrNotFound,
            r matches Ok(p) ==> p.path@ == self.path_of(name@) && p.type64
                == crate::encodevert::is_wide(&self.conf.structure_of(name@)),
    {
        let s: &Block = match self.conf.structure(name) {
            Some(b) => b,
            None => {
                return Err(CorpError::AttrNotFound);
            },
        };
        Ok(StructPlan { path: self.file_path(name), type64: crate::encodevert::wide(s) })
    }

    /// The path under which the text of the attribute `attrname` of the
    /// structure `structname` lies, which is held as an array.
    pub fn open_structtext(&self, structname: &str, attrname: &str) -> (path: String)
        ensures
            path@ == self.path@ + seq!['/'] + structname@ + seq!['.'] + attrname@,
    {
        proof {
            reveal_strlit(".");
            assert("."@ =~= seq!['.']);
        }
        let p: String = self.file_path(structname);
        let q: String = join2(p.as_str(), ".");
        let r: String = join2(q.as_str(), attrname);
        assert(r@ =~= self.path@ + seq!['/'] + structname@ + seq!['.'] + attrname@);
        r
    }

    /// The value that the configuration gives `name`, if it gives one
    /// that is not empty.
    pub open spec fn given(&self, name: Seq<char>) -> Option<Seq<char>> {
        match self.conf.value_of(name) {
            Some(v) => if v.len() > 0 {
                Some(v)
            } else {
                None
            },
            None => None,
        }
    }

    /// The attribute that is taken where none is named: `DEFAULTATTR`,
    /// or `word`.
    pub open spec fn default_attr(&self) -> Seq<char> {
        match self.given("DEFAULTATTR"@) {
            Some(v) => v,
            None => "word"@,
        }
    }

    /// The attribute of the word sketches: `WSATTR`, or the first of
    /// `lempos_lc`, `lempos`, `lemma_lc` and `lemma` that the corpus has,
    /// or the attribute that is taken where none is named.
    pub open spec fn ws_attr(&self) -> Seq<char> {
        match self.given("WSATTR"@) {
            Some(v) => v,
            None => if self.conf.has_attribute("lempos_lc"@) {
                "lempos_lc"@
            } else if self.conf.has_attribute("lempos"@) {
                "lempos"@
            } else if self.conf.has_attribute("lemma_lc"@) {
                "lemma_lc"@
            } else if self.conf.has_attribute("lemma"@) {
                "lemma"@
            } else {
                self.default_attr()
            },
        }
    }

    /// The value of `name` as the corpus has it: the one that the
    /// configuration gives, if it is not empty; else for `WSATTR` and
    /// `DEFAULTATTR` the attributes above; for `WSBASE` the directory of
    /// the corpus, the attribute of the word sketches and `-ws`, as a path
    /// of the configuration is meant; and none for any other name.
    pub open spec fn setting(&self, name: Seq<char>) -> Option<Seq<char>> {
        if self.given(name) is Some {
            self.given(name)
        } else if name == "WSATTR"@ {
            Some(self.ws_attr())
        } else if name == "DEFAULTATTR"@ {
            Some("word"@)
        } else if name == "WSBASE"@ {
            Some(rebased(self.dir@, self.path@ + self.ws_attr() + "-ws"@))
        } else {
            None
        }
    }

    fn given_value(&self, name: &str) -> (r: Option<String>)
        ensures
            r is Some <==> self.given(name@) is Some,
            r matches Some(v) ==> Some(v@) == self.given(name@),
    {
        match self.conf.value(name) {
            Some(v) => if v.unicode_len() > 0 {
                Some(v.to_owned())
            } else {
                None
            },
            None => None,
        }
    }

    fn ws_attr_name(&self) -> (r: String)
        ensures
            r@ == self.ws_attr(),
    {
        match self.given_value("WSATTR") {
            Some(v) => v,
            None => if self.conf.attribute("lempos_lc").is_some() {
                "lempos_lc".to_owned()
            } else if self.conf.attribute("lempos").is_some() {
                "lempos".to_owned()
            } else if self.conf.attribute("lemma_lc").is_some() {
                "lemma_lc".to_owned()
            } else if self.conf.attribute("lemma").is_some() {
                "lemma".to_owned()
            } else {
                match self.given_value("DEFAULTATTR") {
                    Some(v) => v,
                    None => "word".to_owned(),
                }
            },
        }
    }

    /// The value of `name` as the corpus has it.
    #[verifier::rlimit(50)]
    pub fn get_conf(&self, name: &str) -> (r: Option<String>)
        ensures
            r is Some <==> self.setting(name@) is Some,
            r matches Some(v) ==> Some(v@) == self.setting(name@),
    {
        match self.given_value(name) {
            Some(v) => {
                return Some(v);
            },
            None => {},
        }
        if same_str(name, "WSATTR") {
            Some(self.ws_attr_name())
        } else if same_str(name, "DEFAULTATTR") {
            Some("word".to_owned())
        } else if same_str(name, "WSBASE") {
            let a: String = self.ws_attr_name();
            let p: String = join2(self.path.as_str(), a.as_str());
            let q: String = join2(p.as_str(), "-ws");
            Some(self.rebase_path(q.as_str()))
        } else {
            None
        }
    }
}

/// Where the frequencies of a kind are read from.
#[derive(Debug)]
pub enum FreqPlan {
    /// The file of 64-bit numbers at this path.
    Long(String),
    /// The file of 64-bit numbers at `frq64` if there is one, else the
    /// file of 32-bit numbers at `frq`.
    FrqOr64 { frq64: String, frq: String },
}

/// Where the frequencies of kind `kind` of the attribute under `base`
/// are read from. A kind `ext:l` names the file of 64-bit numbers with the
/// suffix `ext`; the kind `frq` the file `.frq64` or `.frq`; any other is
/// of no known type.
pub fn open_freq(base: &str, kind: &str) -> (r: Result<FreqPlan, CorpError>)
    ensures
        r matches Err(e) ==> e == CorpError::BadFrequencyType,
        find_char(kind@, 0, ':') < kind@.len() ==> {
            let c = find_char(kind@, 0, ':');
            let c2 = find_char(kind@, c + 1, ':');
            if kind@.subrange(c + 1, c2) == "l"@ {
                r matches Ok(FreqPlan::Long(p)) && p@ == base@ + seq!['.'] + kind@.subrange(0, c)
            } else {
                r is Err
            }
        },
        find_char(kind@, 0, ':') >= kind@.len() ==> if kind@ == "frq"@ {
            r matches Ok(FreqPlan::FrqOr64 { frq64, frq }) && frq64@ == base@ + ".frq64"@ && frq@
                == base@ + ".frq"@
        } else {
            r is Err
        },
{
    let v = chars_of(kind);
    let c: usize = find_char_in(&v, 0, ':');
    if c < v.len() {
        let c2: usize = find_char_in(&v, c + 1, ':');
        let ext: String = part(kind, 0, c);
        let datatype: String = part(kind, c + 1, c2);
        if same_str(datatype.as_str(), "l") {
            proof {
                reveal_strlit(".");
                assert("."@ =~= seq!['.']);
            }
            let p: String = join2(base, ".");
            Ok(FreqPlan::Long(join2(p.as_str(), ext.as_str())))
        } else {
            Err(CorpError::BadFrequencyType)
        }
    } else if same_str(kind, "frq") {
        Ok(FreqPlan::FrqOr64 { frq64: join2(base, ".frq64"), frq: join2(base, ".frq") })
    } else {
        Err(CorpError::BadFrequencyType)
    }
}

/// What gives the frequency of an id.
pub trait Frequency {
    /// Whether the frequency of `id` can be had.
    spec fn frq_ok(&self, id: u32) -> bool;

    /// The frequency of `id`.
    spec fn frq_of(&self, id: u32) -> int;

    /// The frequency of `id`.
    fn frq(&self, id: u32) -> (n: u64)
        requires
            self.frq_ok(id),
        ensures
            n == self.frq_of(id),
    ;
}

/// Frequencies from a file of 32-bit numbers, one for each id.
#[derive(Debug)]
pub struct FromFile32 {
    pub values: Vec<u32>,
}

/// Frequencies from a file of 64-bit numbers, one for each id.
#[derive(Debug)]
pub struct FromFile64 {
    pub values: Vec<u64>,
}

impl FromFile32 {
    /// The frequencies from the contents of their file.
    pub fn open(bytes: &[u8]) -> (f: FromFile32)
        ensures
            f.values@ == crate::util::le_u32s(bytes@),
    {
        FromFile32 { values: crate::util::u32_words(bytes) }
    }

    /// The number that the file holds for `id`.
    pub fn at(&self, id: u32) -> (n: u32)
        requires
            id < self.values@.len(),
        ensures
            n == self.values@[id as int],
    {
        self.values[id as usize]
    }
}

impl FromFile64 {
    /// The frequencies from the contents of their file.
    pub fn open(bytes: &[u8]) -> (f: FromFile64)
        ensures
            f.values@ == crate::util::le_words(bytes@),
    {
        FromFile64 { values: crate::util::u64_words(bytes) }
    }

    /// The number that the file holds for `id`.
    pub fn at(&self, id: u32) -> (n: u64)
        requires
            id < self.values@.len(),
        ensures
            n == self.values@[id as int],
    {
        self.values[id as usize]
    }
}

impl Frequency for FromFile32 {
    open spec fn frq_ok(&self, id: u32) -> bool {
        id < self.values@.len()
    }

    open spec fn frq_of(&self, id: u32) -> int {
        self.values@[id as int] as int
    }

    fn frq(&self, id: u32) -> (n: u64) {
        self.at(id) as u64
    }
}

impl Frequency for FromFile64 {
    open spec fn frq_ok(&self, id: u32) -> bool {
        id < self.values@.len()
    }

    open spec fn frq_of(&self, id: u32) -> int {
        self.values@[id as int] as int
    }

    fn frq(&self, id: u32) -> (n: u64) {
        self.at(id)
    }
}

/// An attribute with a text and a reverse index of its own.
#[derive(Debug)]
pub struct StdAttr {
    pub path: String,
    pub name: String,
    pub conf: Block,
    pub lex: MapLex,
    pub text: AnyText,
    pub rev: AnyRev,
}

/// An attribute that stands over another: each id of the other is
/// translated into an id of its own.
#[derive(Debug)]
pub struct DynAttr {
    pub path: String,
    pub name: String,
    pub conf: Block,
    pub lex: MapLex,
    pub fromattr: Box<AnyAttr>,
    /// For each id of the other attribute the id of this one.
    pub ridx: Vec<u32>,
    /// For each id of this attribute the ids of the other that are
    /// translated into it.
    pub lrev: AnyRev,
}

/// An attribute of either kind.
#[derive(Debug)]
pub enum AnyAttr {
    Std(StdAttr),
    Dyn(DynAttr),
}

/// The sum of the frequencies that an attribute has for the ids of a
/// list.
pub open spec fn sum_frq(from: &AnyAttr, list: Seq<u64>) -> int
    decreases from, list.len(),
{
    if list.len() == 0 {
        0
    } else {
        from.frq_of(list[0] as u32) + sum_frq(from, list.skip(1))
    }
}

/// Whether an attribute has a frequency for every id of a list, and no
/// sum of them passes the range of 64 bits.
pub open spec fn sum_ok(from: &AnyAttr, list: Seq<u64>, before: int) -> bool
    decreases from, list.len(),
{
    list.len() == 0 || (from.frq_ok(list[0] as u32) && before + from.frq_of(list[0] as u32)
        <= u64::MAX && sum_ok(from, list.skip(1), before + from.frq_of(list[0] as u32)))
}

impl AnyAttr {
    /// Validity of an attribute: its text is valid, and a dynamic
    /// attribute has a translation for every id of the text that it stands
    /// over.
    pub open spec fn wf(&self) -> bool
        decreases self,
    {
        match self {
            AnyAttr::Std(a) => a.text.wf(),
            AnyAttr::Dyn(d) => d.fromattr.wf() && forall|p: int|
                0 <= p < d.fromattr.ids().len() ==> (#[trigger] d.fromattr.ids()[p])
                    < d.ridx@.len(),
        }
    }

    /// The ids of the attribute, one for each position: those of its
    /// text, or for a dynamic attribute the translations of the ids of the
    /// attribute that it stands over.
    pub open spec fn ids(&self) -> Seq<u32>
        decreases self,
    {
        match self {
            AnyAttr::Std(a) => a.text.ids(),
            AnyAttr::Dyn(d) => Seq::new(
                d.fromattr.ids().len(),
                |p: int| d.ridx@[d.fromattr.ids()[p] as int],
            ),
        }
    }

    /// Whether the frequency of `id` can be had: the reverse index has
    /// its list; for a dynamic attribute also the frequencies of the ids
    /// that are translated into `id` can be had, and their sum stays in the
    /// range of 64 bits.
    pub open spec fn frq_ok(&self, id: u32) -> bool
        decreases self, 0nat,
    {
        match self {
            AnyAttr::Std(a) => a.rev.has_id(id),
            AnyAttr::Dyn(d) => d.lrev.has_id(id) && sum_ok(&*d.fromattr, d.lrev.postings(id), 0),
        }
    }

    /// The frequency of `id`: the number of its positions; for a dynamic
    /// attribute the sum of the frequencies of the ids that are translated
    /// into `id`.
    pub open spec fn frq_of(&self, id: u32) -> int
        decreases self, 0nat,
    {
        match self {
            AnyAttr::Std(a) => a.rev.postings(id).len() as int,
            AnyAttr::Dyn(d) => sum_frq(&*d.fromattr, d.lrev.postings(id)),
        }
    }

    /// The lexicon of the attribute.
    pub fn lex(&self) -> (l: &MapLex)
        ensures
            l == match self {
                AnyAttr::Std(a) => &a.lex,
                AnyAttr::Dyn(d) => &d.lex,
            },
    {
        match self {
            AnyAttr::Std(a) => &a.lex,
            AnyAttr::Dyn(d) => &d.lex,
        }
    }

    /// The string of `id`.
    pub fn id2str(&self, id: u32) -> (s: &[u8])
        requires
            self.lex_spec().has_id(id),
        ensures
            s@ == self.lex_spec().string_of(id),
    {
        self.lex().id2str(id)
    }

    /// The lexicon of the attribute.
    pub open spec fn lex_spec(&self) -> &MapLex {
        match self {
            AnyAttr::Std(a) => &a.lex,
            AnyAttr::Dyn(d) => &d.lex,
        }
    }

    /// The id whose string is `s`.
    pub fn str2id(&self, s: &str) -> (r: Option<u32>)
        requires
            self.lex_spec().wf(),
        ensures
            self.lex_spec().finds(s.spec_bytes(), r),
    {
        self.lex().str2id(s)
    }

    /// Number of ids.
    pub fn id_range(&self) -> (n: u32)
        ensures
            n == self.lex_spec().count,
    {
        self.lex().id_range()
    }

    /// The reverse index over the positions: that of the attribute, or
    /// for a dynamic attribute that of the attribute that it stands over.
    pub fn revidx(&self) -> (r: &AnyRev)
        ensures
            r == self.revidx_spec(),
        decreases self,
    {
        match self {
            AnyAttr::Std(a) => &a.rev,
            AnyAttr::Dyn(d) => d.fromattr.revidx(),
        }
    }

    /// The reverse index over the positions.
    pub open spec fn revidx_spec(&self) -> &AnyRev
        decreases self,
    {
        match self {
            AnyAttr::Std(a) => &a.rev,
            AnyAttr::Dyn(d) => d.fromattr.revidx_spec(),
        }
    }

    /// Number of positions.
    pub fn size(&self) -> (n: usize)
        requires
            self.wf(),
        ensures
            n == self.ids().len(),
        decreases self,
    {
        match self {
            AnyAttr::Std(a) => a.text.size(),
            AnyAttr::Dyn(d) => d.fromattr.size(),
        }
    }

    /// The id at position `pos`.
    pub fn get(&self, pos: u64) -> (id: u32)
        requires
            self.wf(),
            pos < self.ids().len(),
        ensures
            id == self.ids()[pos as int],
        decreases self,
    {
        match self {
            AnyAttr::Std(a) => a.text.get(pos),
            AnyAttr::Dyn(d) => {
                let org: u32 = d.fromattr.get(pos);
                d.ridx[org as usize]
            },
        }
    }

    /// The frequency of `id`.
    pub fn frq(&self, id: u32) -> (n: u64)
        requires
            self.frq_ok(id),
        ensures
            n == self.frq_of(id),
        decreases self, 0nat,
    {
        match self {
            AnyAttr::Std(a) => a.rev.count(id),
            AnyAttr::Dyn(d) => {
                let it = d.lrev.id2poss(id);
                sum_list(&*d.fromattr, it)
            },
        }
    }
}

/// The sum of the frequencies that an attribute has for the ids that
/// an iterator yields.
fn sum_list(from: &AnyAttr, it: RevIter<'_>) -> (tot: u64)
    requires
        it.wf(),
        sum_ok(from, it@, 0),
    ensures
        tot == sum_frq(from, it@),
    decreases from, 1nat,
{
    let mut rest = it;
    let mut tot: u64 = 0;
    loop
        invariant
            rest.wf(),
            sum_ok(from, rest@, tot as int),
            sum_frq(from, it@) == tot + sum_frq(from, rest@),
        decreases rest@.len(),
    {
        match rest.next() {
            Some(oid) => {
                tot += from.frq(#[verifier::truncate] (oid as u32));
            },
            None => {
                return tot;
            },
        }
    }
}

impl Frequency for AnyAttr {
    open spec fn frq_ok(&self, id: u32) -> bool {
        AnyAttr::frq_ok(self, id)
    }

    open spec fn frq_of(&self, id: u32) -> int {
        AnyAttr::frq_of(self, id)
    }

    fn frq(&self, id: u32) -> (n: u64) {
        AnyAttr::frq(self, id)
    }
}

/// Iterator over the ids of an attribute from a position on.
pub enum IdIter<'a> {
    /// Over a stream of delta codes.
    Stream(StreamIter<'a>),
    /// Over an array.
    Array(IntIter<'a>),
    /// Over the ids of another attribute, each translated.
    Mapped(Box<IdIter<'a>>, &'a Vec<u32>),
}

impl<'a> IdIter<'a> {
    /// The ids that are still to come.
    pub open spec fn ids(&self) -> Seq<u32>
        decreases self,
    {
        match self {
            IdIter::Stream(it) => it@,
            IdIter::Array(it) => it@,
            IdIter::Mapped(inner, ridx) => Seq::new(
                inner.ids().len(),
                |p: int| ridx@[inner.ids()[p] as int],
            ),
        }
    }

    /// Every id that is still to come can be read, and translated where
    /// it is to be.
    pub open spec fn wf(&self) -> bool
        decreases self,
    {
        match self {
            IdIter::Stream(it) => it.wf(),
            IdIter::Array(it) => it.inttext.wf(),
            IdIter::Mapped(inner, ridx) => inner.wf() && forall|p: int|
                0 <= p < inner.ids().len() ==> (#[trigger] inner.ids()[p]) < ridx@.len(),
        }
    }

    /// The next id, or `None` at the end.
    pub fn next(&mut self) -> (r: Option<u32>)
        requires
            old(self).wf(),
        ensures
            final(self).wf(),
            old(self).ids().len() == 0 ==> r is None && final(self).ids().len() == 0,
            old(self).ids().len() > 0 ==> r == Some(old(self).ids()[0]) && final(self).ids() == old(
                self,
            ).ids().skip(1),
        decreases *old(self),
    {
        match self {
            IdIter::Stream(it) => it.next(),
            IdIter::Array(it) => it.next(),
            IdIter::Mapped(inner, ridx) => {
                let ghost before = inner.ids();
                match inner.next() {
                    Some(org) => {
                        assert(before[0] == org);
                        let id: u32 = ridx[org as usize];
                        proof {
                            assert(final(self).ids() =~= old(self).ids().skip(1));
                            assert forall|p: int| 0 <= p < inner.ids().len() implies (
                            #[trigger] inner.ids()[p]) < ridx@.len() by {
                                assert(inner.ids()[p] == before[p + 1]);
                            }
                        }
                        Some(id)
                    },
                    None => None,
                }
            },
        }
    }
}

impl AnyAttr {
    /// Whether an iterator can be opened at position `pos`.
    pub open spec fn opens_at(&self, pos: int) -> bool
        decreases self,
    {
        match self {
            AnyAttr::Std(a) => a.text.opens_at(pos),
            AnyAttr::Dyn(d) => d.fromattr.opens_at(pos),
        }
    }

    /// Iterator over the ids from position `frompos` on.
    pub fn iter_ids(&self, frompos: u64) -> (it: IdIter<'_>)
        requires
            self.wf(),
            self.opens_at(frompos as int),
            frompos <= self.ids().len(),
        ensures
            it.wf(),
            it.ids() == self.ids().skip(frompos as int),
        decreases self,
    {
        match self {
            AnyAttr::Std(a) => match &a.text {
                AnyText::Delta(t) => IdIter::Stream(StreamIter::Plain(t.at(frompos))),
                AnyText::GigaDelta(t) => IdIter::Stream(StreamIter::Runs(t.at(frompos))),
                AnyText::Int(t) => IdIter::Array(IntIter { position: frompos as usize, inttext: t }),
            },
            AnyAttr::Dyn(d) => {
                let inner = d.fromattr.iter_ids(frompos);
                let it = IdIter::Mapped(Box::new(inner), &d.ridx);
                proof {
                    assert(it.ids() =~= self.ids().skip(frompos as int));
                    assert forall|p: int| 0 <= p < inner.ids().len() implies (
                    #[trigger] inner.ids()[p]) < d.ridx@.len() by {
                        assert(inner.ids()[p] == d.fromattr.ids()[p + frompos]);
                    }
                }
                it
            },
        }
    }
}

/// The frequencies of an attribute as its reverse index counts them.
pub struct RevFrequency<'a> {
    pub a: &'a StdAttr,
}

impl<'a> Frequency for RevFrequency<'a> {
    open spec fn frq_ok(&self, id: u32) -> bool {
        self.a.rev.has_id(id)
    }

    open spec fn frq_of(&self, id: u32) -> int {
        self.a.rev.postings(id).len() as int
    }

    fn frq(&self, id: u32) -> (n: u64) {
        self.a.rev.count(id)
    }
}

/// The frequencies of a dynamic attribute as sums over the attribute
/// that it stands over.
pub struct DynFrequency<'a> {
    pub da: &'a DynAttr,
}

impl<'a> Frequency for DynFrequency<'a> {
    open spec fn frq_ok(&self, id: u32) -> bool {
        self.da.lrev.has_id(id) && sum_ok(&*self.da.fromattr, self.da.lrev.postings(id), 0)
    }

    open spec fn frq_of(&self, id: u32) -> int {
        sum_frq(&*self.da.fromattr, self.da.lrev.postings(id))
    }

    fn frq(&self, id: u32) -> (n: u64) {
        let it = self.da.lrev.id2poss(id);
        sum_list(&*self.da.fromattr, it)
    }
}

impl Frequency for StdAttr {
    open spec fn frq_ok(&self, id: u32) -> bool {
        self.rev.has_id(id)
    }

    open spec fn frq_of(&self, id: u32) -> int {
        self.rev.postings(id).len() as int
    }

    fn frq(&self, id: u32) -> (n: u64) {
        self.rev.count(id)
    }
}

impl Frequency for DynAttr {
    open spec fn frq_ok(&self, id: u32) -> bool {
        self.lrev.has_id(id) && sum_ok(&*self.fromattr, self.lrev.postings(id), 0)
    }

    open spec fn frq_of(&self, id: u32) -> int {
        sum_frq(&*self.fromattr, self.lrev.postings(id))
    }

    fn frq(&self, id: u32) -> (n: u64) {
        let it = self.lrev.id2poss(id);
        sum_list(&*self.fromattr, it)
    }
}

/// Where the frequencies of a kind of an attribute come from.
pub enum FreqSource<'a> {
    /// From the reverse index of the attribute.
    Rev(RevFrequency<'a>),
    /// From sums over the attribute that a dynamic attribute stands
    /// over.
    Dyn(DynFrequency<'a>),
    /// From a file.
    File(FreqPlan),
}

impl AnyAttr {
    /// The path under which the files of the attribute lie.
    pub open spec fn path_spec(&self) -> Seq<char> {
        match self {
            AnyAttr::Std(a) => a.path@,
            AnyAttr::Dyn(d) => d.path@,
        }
    }

    /// Where the frequencies of kind `t` come from: for `frq` from the
    /// attribute itself; for a kind `ext:l` from the file of 64-bit
    /// numbers with the suffix `ext` under the path of the attribute. Any
    /// other kind is refused.
    pub fn get_freq(&self, t: &str) -> (r: Result<FreqSource<'_>, CorpError>)
        ensures
            t@ == "frq"@ ==> match self {
                AnyAttr::Std(a) => r matches Ok(FreqSource::Rev(f)) && f.a == a,
                AnyAttr::Dyn(d) => r matches Ok(FreqSource::Dyn(f)) && f.da == d,
            },
            t@ != "frq"@ ==> {
                let c = find_char(t@, 0, ':');
                if c < t@.len() && t@.subrange(c + 1, find_char(t@, c + 1, ':')) == "l"@ {
                    r matches Ok(FreqSource::File(FreqPlan::Long(p))) && p@ == self.path_spec()
                        + seq!['.'] + t@.subrange(0, c)
                } else {
                    r is Err
                }
            },
            r matches Err(e) ==> e == CorpError::BadFrequencyType,
    {
        if same_str(t, "frq") {
            match self {
                AnyAttr::Std(a) => Ok(FreqSource::Rev(RevFrequency { a })),
                AnyAttr::Dyn(d) => Ok(FreqSource::Dyn(DynFrequency { da: d })),
            }
        } else {
            let path: &str = match self {
                AnyAttr::Std(a) => a.path.as_str(),
                AnyAttr::Dyn(d) => d.path.as_str(),
            };
            match open_freq(path, t) {
                Ok(plan) => Ok(FreqSource::File(plan)),
                Err(e) => Err(e),
            }
        }
    }
}

impl Text for DynAttr {
    open spec fn wf(&self) -> bool {
        self.fromattr.wf() && forall|p: int|
            0 <= p < self.fromattr.ids().len() ==> (#[trigger] self.fromattr.ids()[p])
                < self.ridx@.len()
    }

    open spec fn ids(&self) -> Seq<u32> {
        Seq::new(
            self.fromattr.ids().len(),
            |p: int| self.ridx@[self.fromattr.ids()[p] as int],
        )
    }

    open spec fn opens_at(&self, pos: int) -> bool {
        true
    }

    open spec fn is_stream(&self) -> bool {
        false
    }

    open spec fn is_array(&self) -> bool {
        false
    }

    fn posat(&self, _pos: u64) -> (r: Option<StreamIter<'_>>) {
        None
    }

    fn structat(&self, _pos: u64) -> (r: Option<IntIter<'_>>) {
        None
    }

    fn size(&self) -> (n: usize) {
        self.fromattr.size()
    }

    fn get(&self, pos: u64) -> (id: u32) {
        let org: u32 = self.fromattr.get(pos);
        self.ridx[org as usize]
    }
}

/// What every attribute offers.
pub trait Attr: Frequency {
    /// Validity of the attribute.
    spec fn valid(&self) -> bool;

    /// The ids of the attribute, one for each position.
    spec fn id_seq(&self) -> Seq<u32>;

    /// Whether an iterator can be opened at position `pos`.
    spec fn iter_at(&self, pos: int) -> bool;

    /// The lexicon of the attribute.
    spec fn lexicon(&self) -> &MapLex;

    /// Iterator over the ids from position `frompos` on.
    fn iter_ids(&self, frompos: u64) -> (it: IdIter<'_>)
        requires
            self.valid(),
            self.iter_at(frompos as int),
            frompos <= self.id_seq().len(),
        ensures
            it.wf(),
            it.ids() == self.id_seq().skip(frompos as int),
    ;

    /// The string of `id`.
    fn id2str(&self, id: u32) -> (s: &[u8])
        requires
            self.lexicon().has_id(id),
        ensures
            s@ == self.lexicon().string_of(id),
    ;

    /// The id whose string is `s`.
    fn str2id(&self, s: &str) -> (r: Option<u32>)
        requires
            self.lexicon().wf(),
        ensures
            self.lexicon().finds(s.spec_bytes(), r),
    ;

    /// Number of ids.
    fn id_range(&self) -> (n: u32)
        ensures
            n == self.lexicon().count,
    ;

    /// Number of positions.
    fn size(&self) -> (n: usize)
        requires
            self.valid(),
        ensures
            n == self.id_seq().len(),
    ;

    /// The id at position `pos`.
    fn get(&self, pos: u64) -> (id: u32)
        requires
            self.valid(),
            pos < self.id_seq().len(),
        ensures
            id == self.id_seq()[pos as int],
    ;
}

impl Attr for AnyAttr {
    open spec fn valid(&self) -> bool {
        self.wf()
    }

    open spec fn id_seq(&self) -> Seq<u32> {
        self.ids()
    }

    open spec fn iter_at(&self, pos: int) -> bool {
        self.opens_at(pos)
    }

    open spec fn lexicon(&self) -> &MapLex {
        self.lex_spec()
    }

    fn iter_ids(&self, frompos: u64) -> (it: IdIter<'_>) {
        AnyAttr::iter_ids(self, frompos)
    }

    fn id2str(&self, id: u32) -> (s: &[u8]) {
        AnyAttr::id2str(self, id)
    }

    fn str2id(&self, s: &str) -> (r: Option<u32>) {
        AnyAttr::str2id(self, s)
    }

    fn id_range(&self) -> (n: u32) {
        AnyAttr::id_range(self)
    }

    fn size(&self) -> (n: usize) {
        AnyAttr::size(self)
    }

    fn get(&self, pos: u64) -> (id: u32) {
        AnyAttr::get(self, pos)
    }
}

/// In a valid attribute with a position an iterator can be opened at
/// the first.
pub proof fn lemma_opens_at_start(a: &AnyAttr)
    requires
        a.wf(),
        a.ids().len() > 0,
    ensures
        a.opens_at(0),
    decreases a,
{
    match a {
        AnyAttr::Std(s) => {
            crate::text::lemma_iterator_starts_at_get(&s.text, 0);
        },
        AnyAttr::Dyn(d) => {
            lemma_opens_at_start(&*d.fromattr);
        },
    }
}

impl AnyAttr {
    /// Whether the attribute is valid, found by reading all of it.
    pub fn check(&self) -> (b: bool)
        ensures
            b == self.wf(),
        decreases self,
    {
        match self {
            AnyAttr::Std(a) => a.text.check(),
            AnyAttr::Dyn(d) => {
                if !d.fromattr.check() {
                    return false;
                }
                if d.fromattr.size() == 0 {
                    return true;
                }
                proof {
                    lemma_opens_at_start(&*d.fromattr);
                }
                let mut it = d.fromattr.iter_ids(0);
                let ghost all = d.fromattr.ids();
                let ghost mut k: int = 0;
                assert(all.skip(0) =~= all);
                loop
                    invariant
                        it.wf(),
                        0 <= k <= all.len(),
                        it.ids() == all.skip(k),
                        forall|p: int| 0 <= p < k ==> (#[trigger] all[p]) < d.ridx@.len(),
                        all == d.fromattr.ids(),
                        d.fromattr.wf(),
                        self == AnyAttr::Dyn(*d),
                    decreases it.ids().len(),
                {
                    match it.next() {
                        Some(org) => {
                            assert(org == all[k]);
                            if org as usize >= d.ridx.len() {
                                return false;
                            }
                            proof {
                                assert(all.skip(k).skip(1) =~= all.skip(k + 1));
                                k = k + 1;
                            }
                        },
                        None => {
                            return true;
                        },
                    }
                }
            },
        }
    }

    /// Whether the frequency of `id` can be had.
    pub fn can_frq(&self, id: u32) -> (b: bool)
        ensures
            b == self.frq_ok(id),
        decreases self, 0nat,
    {
        match self {
            AnyAttr::Std(a) => a.rev.check_id(id),
            AnyAttr::Dyn(d) => {
                if !d.lrev.check_id(id) {
                    return false;
                }
                let it = d.lrev.id2poss(id);
                can_sum_list(&*d.fromattr, it)
            },
        }
    }
}

/// Whether the frequencies that an attribute has for the ids that an
/// iterator yields can be summed up.
fn can_sum_list(from: &AnyAttr, it: RevIter<'_>) -> (b: bool)
    requires
        it.wf(),
    ensures
        b == sum_ok(from, it@, 0),
    decreases from, 1nat,
{
    let mut rest = it;
    let mut tot: u64 = 0;
    loop
        invariant
            rest.wf(),
            sum_ok(from, it@, 0) == sum_ok(from, rest@, tot as int),
        decreases rest@.len(),
    {
        match rest.next() {
            Some(oid) => {
                let o: u32 = #[verifier::truncate] (oid as u32);
                if !from.can_frq(o) {
                    return false;
                }
                let f: u64 = from.frq(o);
                if f > u64::MAX - tot {
                    return false;
                }
                tot += f;
            },
            None => {
                return true;
            },
        }
    }
}

} // verus!
