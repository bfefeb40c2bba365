//! The table of known languages: where each one's parser comes from, the
//! digest its download must have, and the file extensions it serves.

use crate::config::{parse_toml, toml_document, TomlValue};
use crate::text::{chars_of, same_text};
use vstd::prelude::*;
use vstd::utf8::encode_utf8;

verus! {

/// `hex::FromHexError`, the error of `hex::decode`, carried through as it is.
#[verifier::external_type_specification]
#[verifier::external_body]
pub struct ExFromHexError(hex::FromHexError);

/// The value of hex digit `c`.
pub open spec fn hex_val(c: u8) -> Option<u8> {
    if 48 <= c <= 57 {
        Some((c - 48) as u8)
    } else if 65 <= c <= 70 {
        Some((c - 55) as u8)
    } else if 97 <= c <= 102 {
        Some((c - 87) as u8)
    } else {
        None
    }
}

/// The bytes that the hex digits `b` spell, two digits a byte, if `b` has an
/// even number of hex digits and nothing else.
pub open spec fn hex_decoded(b: Seq<u8>) -> Option<Seq<u8>> {
    if b.len() % 2 == 0 && forall|i: int| 0 <= i < b.len() ==> #[trigger] hex_val(b[i]) is Some {
        Some(
            Seq::new(
                b.len() / 2,
                |i: int| (hex_val(b[2 * i])->Some_0 * 16 + hex_val(b[2 * i + 1])->Some_0) as u8,
            ),
        )
    } else {
        None
    }
}

/// Relies on `hex::decode` (hex 0.4): odd lengths and bytes other than hex
/// digits of either case are errors; otherwise each pair of digits is a byte.
#[verifier::external_body]
fn decode_hex(s: &str) -> (r: Result<Vec<u8>, hex::FromHexError>)
    ensures
        match r {
            Ok(v) => hex_decoded(encode_utf8(s@)) == Some(v@),
            Err(_) => hex_decoded(encode_utf8(s@)) is None,
        },
{
    hex::decode(s)
}

/// The data needed to build a language's parser: the repository its
/// grammar lies in and its name (without the `tree-sitter-` prefix).
#[derive(Debug, Clone, PartialEq, Eq, PartialOrd, Ord, Hash)]
pub struct Init {
    git_repo: String,
    name: String,
}

impl Init {
    pub closed spec fn repo(&self) -> Seq<char> {
        self.git_repo@
    }

    pub closed spec fn lang(&self) -> Seq<char> {
        self.name@
    }

    pub fn new(git_repo: String, name: String) -> (r: Init)
        ensures
            r.repo() == git_repo@,
            r.lang() == name@,
    {
        Init { git_repo, name }
    }

    /// The grammar's repository.
    pub fn git_repo(&self) -> (r: &str)
        ensures
            r@ == self.repo(),
    {
        self.git_repo.as_str()
    }

    /// The language's name.
    pub fn name(&self) -> (r: &str)
        ensures
            r@ == self.lang(),
    {
        self.name.as_str()
    }
}

/// The tools and the directory with which grammars are built.
#[derive(Debug, Clone)]
pub struct GlobalSystemData {
    pub c_compiler: String,
    pub cpp_compiler: String,
    pub target_dir: String,
}

impl Default for GlobalSystemData {
    /// `gcc` and `g++`, building under `./target/temp/`.
    fn default() -> (r: GlobalSystemData)
        ensures
            r.c_compiler@ == "gcc"@,
            r.cpp_compiler@ == "g++"@,
            r.target_dir@ == "./target/temp/"@,
    {
        GlobalSystemData {
            c_compiler: "gcc".to_owned(),
            cpp_compiler: "g++".to_owned(),
            target_dir: "./target/temp/".to_owned(),
        }
    }
}

/// Why the language table could not be read.
#[derive(Debug)]
pub enum LanguageError {
    Toml(toml::de::Error),
    UrlIsNotString,
    ExtensionsIsNotArray,
    ExtensionIsNotString,
    IllegalKey(String),
    LanguageDataIsNotTable,
    LangDoesntHaveUrlAndExtensions,
    TomlIsntTable,
    Hex(hex::FromHexError),
    WrongHexSize,
}

/// Why the language table could not be read, with the offending key.
pub enum LangFault {
    Toml,
    UrlIsNotString,
    ExtensionsIsNotArray,
    ExtensionIsNotString,
    IllegalKey(Seq<char>),
    LanguageDataIsNotTable,
    LangDoesntHaveUrlAndExtensions,
    TomlIsntTable,
    Hex,
    WrongHexSize,
}

/// The fault that error `e` reports.
pub open spec fn lang_fault_of(e: LanguageError) -> LangFault {
    match e {
        LanguageError::Toml(_) => LangFault::Toml,
        LanguageError::UrlIsNotString => LangFault::UrlIsNotString,
        LanguageError::ExtensionsIsNotArray => LangFault::ExtensionsIsNotArray,
        LanguageError::ExtensionIsNotString => LangFault::ExtensionIsNotString,
        LanguageError::IllegalKey(k) => LangFault::IllegalKey(k@),
        LanguageError::LanguageDataIsNotTable => LangFault::LanguageDataIsNotTable,
        LanguageError::LangDoesntHaveUrlAndExtensions => LangFault::LangDoesntHaveUrlAndExtensions,
        LanguageError::TomlIsntTable => LangFault::TomlIsntTable,
        LanguageError::Hex(_) => LangFault::Hex,
        LanguageError::WrongHexSize => LangFault::WrongHexSize,
    }
}

/// One language's settings: its name, url, digest and extensions.
pub struct LangData {
    pub name: Seq<char>,
    pub url: Seq<char>,
    pub hash: Seq<u8>,
    pub exts: Seq<Seq<char>>,
}

/// The strings of `a`, if it holds strings only.
pub open spec fn all_strings(a: Seq<TomlValue>) -> Option<Seq<Seq<char>>>
    decreases a.len(),
{
    if a.len() == 0 {
        Some(seq![])
    } else {
        match all_strings(a.drop_last()) {
            None => None,
            Some(xs) => match a.last() {
                TomlValue::Str(s) => Some(xs.push(s@)),
                _ => None,
            },
        }
    }
}

/// The url, digest and extensions that a language's entries set so far,
/// with one more entry read.
pub open spec fn opt_step(
    st: (Option<Seq<char>>, Option<Seq<u8>>, Option<Seq<Seq<char>>>),
    e: (String, TomlValue),
) -> Result<(Option<Seq<char>>, Option<Seq<u8>>, Option<Seq<Seq<char>>>), LangFault> {
    let k = e.0@;
    if k == "url"@ {
        match e.1 {
            TomlValue::Str(u) => Ok((Some(u@), st.1, st.2)),
            _ => Err(LangFault::UrlIsNotString),
        }
    } else if k == "hash"@ {
        match e.1 {
            TomlValue::Str(h) => match hex_decoded(encode_utf8(h@)) {
                Some(b) => Ok((st.0, Some(b), st.2)),
                None => Err(LangFault::Hex),
            },
            _ => Err(LangFault::UrlIsNotString),
        }
    } else if k == "extensions"@ {
        match e.1 {
            TomlValue::Array(a) => match all_strings(a@) {
                Some(xs) => Ok((st.0, st.1, Some(xs))),
                None => Err(LangFault::ExtensionIsNotString),
            },
            _ => Err(LangFault::ExtensionsIsNotArray),
        }
    } else {
        Err(LangFault::IllegalKey(k))
    }
}

/// A language's entries read in order, or the first fault.
pub open spec fn lang_opts(es: Seq<(String, TomlValue)>) -> Result<
    (Option<Seq<char>>, Option<Seq<u8>>, Option<Seq<Seq<char>>>),
    LangFault,
>
    decreases es.len(),
{
    if es.len() == 0 {
        Ok((None, None, None))
    } else {
        match lang_opts(es.drop_last()) {
            Err(f) => Err(f),
            Ok(st) => opt_step(st, es.last()),
        }
    }
}

/// The settings of the language named `name`, whose entry holds `v`.
pub open spec fn lang_entry(name: Seq<char>, v: TomlValue) -> Result<LangData, LangFault> {
    match v {
        TomlValue::Table(opts) => match lang_opts(opts@) {
            Err(f) => Err(f),
            Ok(st) => if st.0 is Some && st.1 is Some && st.2 is Some {
                Ok(LangData { name, url: st.0->Some_0, hash: st.1->Some_0, exts: st.2->Some_0 })
            } else {
                Err(LangFault::LangDoesntHaveUrlAndExtensions)
            },
        },
        _ => Err(LangFault::LanguageDataIsNotTable),
    }
}

/// The languages of a table's entries, in order, or the first fault.
pub open spec fn lang_entries(es: Seq<(String, TomlValue)>) -> Result<Seq<LangData>, LangFault>
    decreases es.len(),
{
    if es.len() == 0 {
        Ok(seq![])
    } else {
        match lang_entries(es.drop_last()) {
            Err(f) => Err(f),
            Ok(ds) => match lang_entry(es.last().0@, es.last().1) {
                Err(f) => Err(f),
                Ok(d) => Ok(ds.push(d)),
            },
        }
    }
}

/// The languages that the TOML text `s` describes: a table from language
/// names to tables of `url`, `hash` (32 bytes in hex) and `extensions`.
pub open spec fn languages_of_text(s: Seq<char>) -> Result<Seq<LangData>, LangFault> {
    match toml_document(s) {
        None => Err(LangFault::Toml),
        Some(TomlValue::Table(es)) => match lang_entries(es@) {
            Err(f) => Err(f),
            Ok(ds) => if forall|i: int| 0 <= i < ds.len() ==> (#[trigger] ds[i]).hash.len() == 32 {
                Ok(ds)
            } else {
                Err(LangFault::WrongHexSize)
            },
        },
        Some(_) => Err(LangFault::TomlIsntTable),
    }
}

/// The index of the last of `ds` that lists extension `ext`.
pub open spec fn ext_index(ds: Seq<LangData>, ext: Seq<char>) -> Option<nat>
    decreases ds.len(),
{
    if ds.len() == 0 {
        None
    } else if ds.last().exts.contains(ext) {
        Some((ds.len() - 1) as nat)
    } else {
        ext_index(ds.drop_last(), ext)
    }
}

/// The part of a file name after its last dot (all of it without a dot).
pub open spec fn last_segment(s: Seq<char>) -> Seq<char>
    decreases s.len(),
{
    if s.len() == 0 {
        s
    } else if s.last() == '.' {
        seq![]
    } else {
        last_segment(s.drop_last()).push(s.last())
    }
}

/// An extension that no language serves.
#[derive(Debug)]
pub struct UnknownExtension(pub String);

/// The known languages and the extensions they serve; a later language wins
/// an extension that two list.
#[derive(Debug)]
pub struct Languages {
    languages: Vec<(Init, Vec<u8>)>,
    extensions: Vec<(String, usize)>,
}

/// The language index that the last pair for extension `e` gives.
pub open spec fn pair_lookup(ps: Seq<(String, usize)>, e: Seq<char>) -> Option<nat>
    decreases ps.len(),
{
    if ps.len() == 0 {
        None
    } else if ps.last().0@ == e {
        Some(ps.last().1 as nat)
    } else {
        pair_lookup(ps.drop_last(), e)
    }
}

/// The plain form of read settings.
pub open spec fn opts_view(v: (Option<String>, Option<Vec<u8>>, Option<Vec<String>>)) -> (
    Option<Seq<char>>,
    Option<Seq<u8>>,
    Option<Seq<Seq<char>>>,
) {
    (
        match v.0 {
            Some(u) => Some(u@),
            None => None,
        },
        match v.1 {
            Some(h) => Some(h@),
            None => None,
        },
        match v.2 {
            Some(x) => Some(x@.map_values(|e: String| e@)),
            None => None,
        },
    )
}

proof fn lemma_strings_fail(a: Seq<TomlValue>, k: int)
    requires
        0 <= k < a.len(),
        all_strings(a.take(k + 1)) is None,
    ensures
        all_strings(a) is None,
    decreases a.len() - k,
{
    if k + 1 < a.len() {
        assert(a.take(k + 2).drop_last() =~= a.take(k + 1));
        lemma_strings_fail(a, k + 1);
    } else {
        assert(a.take(k + 1) =~= a);
    }
}

proof fn lemma_opts_fault(es: Seq<(String, TomlValue)>, k: int)
    requires
        0 <= k < es.len(),
        lang_opts(es.take(k + 1)) is Err,
    ensures
        lang_opts(es) == lang_opts(es.take(k + 1)),
    decreases es.len() - k,
{
    if k + 1 < es.len() {
        assert(es.take(k + 2).drop_last() =~= es.take(k + 1));
        assert(lang_opts(es.take(k + 2)) == lang_opts(es.take(k + 1)));
        lemma_opts_fault(es, k + 1);
    } else {
        assert(es.take(k + 1) =~= es);
    }
}

proof fn lemma_entries_fault(es: Seq<(String, TomlValue)>, k: int)
    requires
        0 <= k < es.len(),
        lang_entries(es.take(k + 1)) is Err,
    ensures
        lang_entries(es) == lang_entries(es.take(k + 1)),
    decreases es.len() - k,
{
    if k + 1 < es.len() {
        assert(es.take(k + 2).drop_last() =~= es.take(k + 1));
        assert(lang_entries(es.take(k + 2)) == lang_entries(es.take(k + 1)));
        lemma_entries_fault(es, k + 1);
    } else {
        assert(es.take(k + 1) =~= es);
    }
}

/// The strings of `a`, if it holds strings only.
fn read_strings(a: &Vec<TomlValue>) -> (r: Option<Vec<String>>)
    ensures
        match all_strings(a@) {
            Some(xs) => r matches Some(v) && v@.map_values(|e: String| e@) == xs,
            None => r is None,
        },
{
    let mut out: Vec<String> = Vec::new();
    let mut k: usize = 0;
    proof {
        assert(a@.take(0) =~= Seq::<TomlValue>::empty());
    }
    while k < a.len()
        invariant
            k <= a@.len(),
            all_strings(a@.take(k as int)) == Some(out@.map_values(|e: String| e@)),
        decreases a@.len() - k,
    {
        proof {
            assert(a@.take(k + 1).drop_last() =~= a@.take(k as int));
            assert(a@.take(k + 1).last() == a@[k as int]);
        }
        match &a[k] {
            TomlValue::Str(x) => {
                let ghost before = out@;
                out.push(x.clone());
                proof {
                    assert(out@.map_values(|e: String| e@) =~= before.map_values(|e: String| e@).push(x@));
                }
            },
            _ => {
                proof {
                    lemma_strings_fail(a@, k as int);
                }
                return None;
            },
        }
        k += 1;
    }
    proof {
        assert(a@.take(k as int) =~= a@);
    }
    Some(out)
}

/// The url, digest and extensions that a language's entries set.
fn read_opts(opts: &Vec<(String, TomlValue)>) -> (r: Result<
    (Option<String>, Option<Vec<u8>>, Option<Vec<String>>),
    LanguageError,
>)
    ensures
        match lang_opts(opts@) {
            Ok(st) => r matches Ok(v) && opts_view(v) == st,
            Err(f) => r matches Err(e) && lang_fault_of(e) == f,
        },
{
    let mut url: Option<String> = None;
    let mut hash: Option<Vec<u8>> = None;
    let mut exts: Option<Vec<String>> = None;
    let mut k: usize = 0;
    proof {
        assert(opts@.take(0) =~= Seq::<(String, TomlValue)>::empty());
    }
    while k < opts.len()
        invariant
            k <= opts@.len(),
            lang_opts(opts@.take(k as int)) == Ok::<_, LangFault>(opts_view((url, hash, exts))),
        decreases opts@.len() - k,
    {
        proof {
            assert(opts@.take(k + 1).drop_last() =~= opts@.take(k as int));
            assert(opts@.take(k + 1).last() == opts@[k as int]);
        }
        let (key, value) = &opts[k];
        if same_text(key.as_str(), "url") {
            match value {
                TomlValue::Str(u) => {
                    url = Some(u.clone());
                },
                _ => {
                    proof {
                        lemma_opts_fault(opts@, k as int);
                    }
                    return Err(LanguageError::UrlIsNotString);
                },
            }
        } else if same_text(key.as_str(), "hash") {
            match value {
                TomlValue::Str(h) => match decode_hex(h.as_str()) {
                    Ok(b) => {
                        hash = Some(b);
                    },
                    Err(e) => {
                        proof {
                            lemma_opts_fault(opts@, k as int);
                        }
                        return Err(LanguageError::Hex(e));
                    },
                },
                _ => {
                    proof {
                        lemma_opts_fault(opts@, k as int);
                    }
                    return Err(LanguageError::UrlIsNotString);
                },
            }
        } else if same_text(key.as_str(), "extensions") {
            match value {
                TomlValue::Array(a) => match read_strings(a) {
                    Some(xs) => {
                        exts = Some(xs);
                    },
                    None => {
                        proof {
                            lemma_opts_fault(opts@, k as int);
                        }
                        return Err(LanguageError::ExtensionIsNotString);
                    },
                },
                _ => {
                    proof {
                        lemma_opts_fault(opts@, k as int);
                    }
                    return Err(LanguageError::ExtensionsIsNotArray);
                },
            }
        } else {
            proof {
                lemma_opts_fault(opts@, k as int);
            }
            return Err(LanguageError::IllegalKey(key.clone()));
        }
        k += 1;
    }
    proof {
        assert(opts@.take(k as int) =~= opts@);
    }
    Ok((url, hash, exts))
}

/// The plain form of the languages read so far: name, url, digest, extensions.
pub open spec fn data_view(d: Seq<(String, String, Vec<u8>, Vec<String>)>) -> Seq<LangData> {
    d.map_values(
        |x: (String, String, Vec<u8>, Vec<String>)|
            LangData { name: x.0@, url: x.1@, hash: x.2@, exts: x.3@.map_values(|e: String| e@) },
    )
}

impl Languages {
    /// Name, url and digest of each language, in order.
    pub closed spec fn langs(&self) -> Seq<(Seq<char>, Seq<char>, Seq<u8>)> {
        self.languages@.map_values(|p: (Init, Vec<u8>)| (p.0.lang(), p.0.repo(), p.1@))
    }

    /// The language that serves extension `e`.
    pub closed spec fn ext_of(&self, e: Seq<char>) -> Option<nat> {
        pair_lookup(self.extensions@, e)
    }

    /// Whether `self` holds the languages `ds`.
    pub open spec fn holds(&self, ds: Seq<LangData>) -> bool {
        &&& self.langs() == ds.map_values(|d: LangData| (d.name, d.url, d.hash))
        &&& forall|e: Seq<char>| #[trigger] self.ext_of(e) == ext_index(ds, e)
    }

    /// The languages that the TOML text `s` describes.
    pub fn parse(s: &str) -> (r: Result<Languages, LanguageError>)
        ensures
            match languages_of_text(s@) {
                Ok(ds) => r matches Ok(l) && l.holds(ds),
                Err(f) => r matches Err(e) && lang_fault_of(e) == f,
            },
    {
        let doc = match parse_toml(s) {
            Ok(d) => d,
            Err(e) => {
                return Err(LanguageError::Toml(e));
            },
        };
        let entries = match doc {
            TomlValue::Table(es) => es,
            _ => {
                return Err(LanguageError::TomlIsntTable);
            },
        };
        let mut data: Vec<(String, String, Vec<u8>, Vec<String>)> = Vec::new();
        let mut k: usize = 0;
        proof {
            assert(entries@.take(0) =~= Seq::<(String, TomlValue)>::empty());
            assert(data_view(data@) =~= Seq::<LangData>::empty());
        }
        while k < entries.len()
            invariant
                k <= entries@.len(),
                lang_entries(entries@.take(k as int)) == Ok::<_, LangFault>(data_view(data@)),
                toml_document(s@) == Some(TomlValue::Table(entries)),
            decreases entries@.len() - k,
        {
            proof {
                assert(entries@.take(k + 1).drop_last() =~= entries@.take(k as int));
                assert(entries@.take(k + 1).last() == entries@[k as int]);
            }
            let (lang, opts) = &entries[k];
            let table = match opts {
                TomlValue::Table(o) => o,
                _ => {
                    proof {
                        lemma_entries_fault(entries@, k as int);
                    }
                    return Err(LanguageError::LanguageDataIsNotTable);
                },
            };
            let read = match read_opts(table) {
                Ok(v) => v,
                Err(e) => {
                    proof {
                        lemma_entries_fault(entries@, k as int);
                    }
                    return Err(e);
                },
            };
            match read {
                (Some(url), Some(hash), Some(exts)) => {
                    let ghost before = data@;
                    data.push((lang.clone(), url, hash, exts));
                    proof {
                        assert(data_view(data@) =~= data_view(before).push(
                            lang_entry(lang@, *opts)->Ok_0,
                        ));
                    }
                },
                _ => {
                    proof {
                        lemma_entries_fault(entries@, k as int);
                    }
                    return Err(LanguageError::LangDoesntHaveUrlAndExtensions);
                },
            }
            k += 1;
        }
        proof {
            assert(entries@.take(k as int) =~= entries@);
        }
        let ghost ds = data_view(data@);
        let mut languages: Vec<(Init, Vec<u8>)> = Vec::new();
        let mut extensions: Vec<(String, usize)> = Vec::new();
        let mut i: usize = 0;
        while i < data.len()
            invariant
                i <= data@.len(),
                ds == data_view(data@),
                lang_entries(entries@) == Ok::<_, LangFault>(ds),
                toml_document(s@) == Some(TomlValue::Table(entries)),
                forall|j: int| 0 <= j < i ==> (#[trigger] ds[j]).hash.len() == 32,
                languages@.len() == i,
                languages@.map_values(|p: (Init, Vec<u8>)| (p.0.lang(), p.0.repo(), p.1@))
                    == ds.take(i as int).map_values(|d: LangData| (d.name, d.url, d.hash)),
                forall|e: Seq<char>| #[trigger] pair_lookup(extensions@, e) == ext_index(ds.take(i as int), e),
            decreases data@.len() - i,
        {
            let (name, url, hash, exts) = &data[i];
            if hash.len() != 32 {
                proof {
                    assert(ds[i as int].hash.len() != 32);
                }
                return Err(LanguageError::WrongHexSize);
            }
            let ghost before_langs = languages@;
            proof {
                assert(ds[i as int] == (LangData { name: name@, url: url@, hash: hash@, exts: exts@.map_values(|e: String| e@) }));
            }
            languages.push((Init::new(url.clone(), name.clone()), copy_bytes(hash)));
            proof {
                assert(ds.take(i + 1) =~= ds.take(i as int).push(ds[i as int]));
                assert(languages@ == before_langs.push(languages@[i as int]));
                assert(languages@[i as int].0.lang() == ds[i as int].name);
                assert(languages@[i as int].0.repo() == ds[i as int].url);
                assert(languages@[i as int].1@ == ds[i as int].hash);
                assert(languages@.map_values(|p: (Init, Vec<u8>)| (p.0.lang(), p.0.repo(), p.1@))
                    =~= before_langs.map_values(|p: (Init, Vec<u8>)| (p.0.lang(), p.0.repo(), p.1@)).push(
                    (ds[i as int].name, ds[i as int].url, ds[i as int].hash),
                ));
                assert(ds.take(i + 1).map_values(|d: LangData| (d.name, d.url, d.hash))
                    =~= ds.take(i as int).map_values(|d: LangData| (d.name, d.url, d.hash)).push(
                    (ds[i as int].name, ds[i as int].url, ds[i as int].hash),
                ));
                assert(languages@.map_values(|p: (Init, Vec<u8>)| (p.0.lang(), p.0.repo(), p.1@))
                    =~= ds.take(i + 1).map_values(|d: LangData| (d.name, d.url, d.hash)));
            }
            let ghost xs = ds[i as int].exts;
            let mut j: usize = 0;
            proof {
                assert(xs.take(0) =~= Seq::<Seq<char>>::empty());
            }
            while j < exts.len()
                invariant
                    j <= exts@.len(),
                    i < data@.len(),
                    ds == data_view(data@),
                    xs == exts@.map_values(|e: String| e@),
                    forall|e: Seq<char>| #[trigger] pair_lookup(extensions@, e) == if xs.take(j as int).contains(e) {
                        Some(i as nat)
                    } else {
                        ext_index(ds.take(i as int), e)
                    },
                decreases exts@.len() - j,
            {
                let ghost before = extensions@;
                proof {
                    assert(exts@[j as int]@ == xs[j as int]);
                }
                extensions.push((exts[j].clone(), i));
                proof {
                    assert(xs.take(j + 1) =~= xs.take(j as int).push(xs[j as int]));
                    assert forall|e: Seq<char>| #[trigger] pair_lookup(extensions@, e) == if xs.take(j + 1).contains(e) {
                        Some(i as nat)
                    } else {
                        ext_index(ds.take(i as int), e)
                    } by {
                        assert(extensions@.drop_last() =~= before);
                        assert(extensions@.last().0@ == xs[j as int]);
                        assert(extensions@.last().1 == i);
                        assert(pair_lookup(extensions@, e) == if xs[j as int] == e {
                            Some(i as nat)
                        } else {
                            pair_lookup(before, e)
                        });
                        if e == xs[j as int] {
                            assert(xs.take(j + 1)[j as int] == e);
                        } else {
                            if xs.take(j + 1).contains(e) {
                                let w = choose|w: int| 0 <= w < j + 1 && #[trigger] xs.take(j + 1)[w] == e;
                                assert(xs.take(j as int)[w] == e);
                            }
                            if xs.take(j as int).contains(e) {
                                let w = choose|w: int| 0 <= w < j && #[trigger] xs.take(j as int)[w] == e;
                                assert(xs.take(j + 1)[w] == e);
                            }
                        }
                    }
                }
                j += 1;
            }
            proof {
                assert(xs.take(j as int) =~= xs);
                let t = ds.take(i + 1);
                assert(t.drop_last() =~= ds.take(i as int));
                assert(t.last() == ds[i as int]);
            }
            i += 1;
        }
        proof {
            assert(ds.take(i as int) =~= ds);
        }
        Ok(Languages { languages, extensions })
    }

    /// The index of the language that serves the extension of file name
    /// `extension` (the part after its last dot).
    pub fn get(&self, extension: &str) -> (r: Result<usize, UnknownExtension>)
        ensures
            match self.ext_of(last_segment(extension@)) {
                Some(i) => r == Ok::<usize, UnknownExtension>(i as usize),
                None => r matches Err(u) && u.0@ == extension@,
            },
    {
        let ext = last_part(extension);
        let mut k = self.extensions.len();
        proof {
            assert(self.extensions@.take(k as int) =~= self.extensions@);
        }
        while k > 0
            invariant
                k <= self.extensions@.len(),
                ext@ == last_segment(extension@),
                pair_lookup(self.extensions@, ext@) == pair_lookup(self.extensions@.take(k as int), ext@),
            decreases k,
        {
            proof {
                assert(self.extensions@.take(k as int).drop_last() =~= self.extensions@.take(k - 1));
            }
            if same_text(self.extensions[k - 1].0.as_str(), ext.as_str()) {
                proof {
                    assert(self.extensions@.take(k as int).last() == self.extensions@[k - 1]);
                    assert(pair_lookup(self.extensions@.take(k as int), ext@) == Some(
                        self.extensions@[k - 1].1 as nat,
                    ));
                    assert(self.ext_of(last_segment(extension@)) == Some(
                        self.extensions@[k - 1].1 as nat,
                    ));
                }
                return Ok(self.extensions[k - 1].1);
            }
            k -= 1;
        }
        Err(UnknownExtension(extension.to_owned()))
    }

    /// Number of languages.
    pub fn len(&self) -> (r: usize)
        ensures
            r == self.langs().len(),
    {
        self.languages.len()
    }

    /// The digest that language `i`'s download must have.
    pub fn digest(&self, i: usize) -> (r: &[u8])
        requires
            i < self.langs().len(),
        ensures
            r@ == self.langs()[i as int].2,
    {
        self.languages[i].1.as_slice()
    }

    /// The parser data of language `i`.
    pub fn init(&self, i: usize) -> (r: &Init)
        requires
            i < self.langs().len(),
        ensures
            (r.lang(), r.repo()) == (self.langs()[i as int].0, self.langs()[i as int].1),
    {
        &self.languages[i].0
    }
}

/// The languages known without any configuration.
pub const DEFAULT_LANGUAGES: &'static str = "
[javascript]
url = \"https://github.com/tree-sitter/tree-sitter-javascript/archive/fdeb68ac8d2bd5a78b943528bb68ceda3aade2eb.zip\"
hash = \"12d976b625f2a439cadccd24cda0a39a61d956e0ab1557542e99eb178587b786\"
extensions = [
    \"js\"
]

[c]
url = \"https://github.com/tree-sitter/tree-sitter-c/archive/f05e279aedde06a25801c3f2b2cc8ac17fac52ae.zip\"
hash = \"0608ec6f4544aa851f0bdbb90698003a06709d9c087031e99dba875842a29281\"
extensions = [
    \"c\"
]
";

impl Default for Languages {
    /// The languages that `DEFAULT_LANGUAGES` describes (none, should it
    /// not parse).
    fn default() -> (r: Languages)
        ensures
            match languages_of_text(DEFAULT_LANGUAGES@) {
                Ok(ds) => r.holds(ds),
                Err(_) => r.langs().len() == 0 && forall|e: Seq<char>| #[trigger] r.ext_of(e) is None,
            },
    {
        match Languages::parse(DEFAULT_LANGUAGES) {
            Ok(l) => l,
            Err(_) => Languages { languages: Vec::new(), extensions: Vec::new() },
        }
    }
}

impl std::str::FromStr for Languages {
    type Err = LanguageError;

    fn from_str(s: &str) -> Result<Languages, LanguageError> {
        Languages::parse(s)
    }
}

/// A copy of `v`.
fn copy_bytes(v: &Vec<u8>) -> (r: Vec<u8>)
    ensures
        r@ == v@,
{
    let mut r: Vec<u8> = Vec::new();
    let mut k: usize = 0;
    while k < v.len()
        invariant
            k <= v@.len(),
            r@ == v@.take(k as int),
        decreases v@.len() - k,
    {
        r.push(v[k]);
        proof {
            assert(r@ =~= v@.take(k + 1));
        }
        k += 1;
    }
    proof {
        assert(v@.take(k as int) =~= v@);
    }
    r
}

/// The part of `s` after its last dot.
fn last_part(s: &str) -> (r: String)
    ensures
        r@ == last_segment(s@),
{
    let cs = chars_of(s);
    let mut start = cs.len();
    proof {
        assert(cs@.take(start as int) =~= cs@);
        assert(cs@.subrange(start as int, start as int) =~= Seq::<char>::empty());
    }
    while start > 0 && cs[start - 1] != '.'
        invariant
            start <= cs@.len(),
            cs@ == s@,
            last_segment(s@) == last_segment(cs@.take(start as int)) + cs@.subrange(start as int, cs@.len() as int),
        decreases start,
    {
        proof {
            let t = cs@.take(start as int);
            assert(t.drop_last() =~= cs@.take(start - 1));
            assert(cs@.subrange(start - 1, cs@.len() as int) =~= seq![cs@[start - 1]] + cs@.subrange(start as int, cs@.len() as int));
        }
        start -= 1;
    }
    proof {
        if start > 0 {
            assert(cs@.take(start as int).last() == '.');
        }
    }
    let mut r = String::new();
    let mut k = start;
    while k < cs.len()
        invariant
            start <= k <= cs@.len(),
            r@ == cs@.subrange(start as int, k as int),
        decreases cs@.len() - k,
    {
        r.push(cs[k]);
        proof {
            assert(r@ =~= cs@.subrange(start as int, k + 1));
        }
        k += 1;
    }
    r
}

} // verus!
