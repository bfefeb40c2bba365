//! Syntax highlighting: the kinds of text, where each kind starts, and the
//! colours a theme gives them.

use crate::buffer::Buffer;
use crate::config::{parse_toml, toml_document, TomlValue};
use crate::text::same_text;
use crate::ui::{colour_named, Colour, IsNotColour};
use std::collections::HashMap;
use vstd::std_specs::iter::IteratorSpec;
use vstd::prelude::*;

verus! {

broadcast use vstd::std_specs::hash::group_hash_axioms;

/// Produces the highlighting of a buffer's text; it may keep state (such as
/// a parse tree) from one call to the next.
pub trait Highlighter {
    fn highlight(&mut self, buf: &Buffer) -> TextHighlighting;
}

/// A kind of text that a theme can colour.
#[derive(Clone, Copy, Debug, PartialEq, Eq, Structural, PartialOrd, Ord, Hash)]
pub enum Type {
    Number,
    Operator,
    Text,
    Keyword,
    Variable,
}

/// A name that is no kind's.
#[derive(Debug)]
pub struct IsNotType(pub String);

/// The kind that `s` names.
pub open spec fn type_named(s: Seq<char>) -> Option<Type> {
    if s == "number"@ {
        Some(Type::Number)
    } else if s == "operator"@ {
        Some(Type::Operator)
    } else if s == "text"@ {
        Some(Type::Text)
    } else if s == "variable"@ {
        Some(Type::Variable)
    } else if s == "keyword"@ {
        Some(Type::Keyword)
    } else {
        None
    }
}

impl Type {
    /// The kind named `s`, or the name back as the error.
    pub fn parse(s: &str) -> (r: Result<Type, IsNotType>)
        ensures
            match type_named(s@) {
                Some(t) => r == Ok::<Type, IsNotType>(t),
                None => r matches Err(e) && e.0@ == s@,
            },
    {
        if same_text(s, "number") {
            Ok(Type::Number)
        } else if same_text(s, "operator") {
            Ok(Type::Operator)
        } else if same_text(s, "text") {
            Ok(Type::Text)
        } else if same_text(s, "variable") {
            Ok(Type::Variable)
        } else if same_text(s, "keyword") {
            Ok(Type::Keyword)
        } else {
            Err(IsNotType(s.to_owned()))
        }
    }
}

impl std::str::FromStr for Type {
    type Err = IsNotType;

    fn from_str(s: &str) -> Result<Type, IsNotType> {
        Type::parse(s)
    }
}

/// A highlighted stretch of text, from `start` to `stop` as (row, column).
#[derive(Clone, Copy, Debug, PartialEq, Eq, PartialOrd, Ord, Hash)]
pub struct Range {
    pub start: (usize, usize),
    pub stop: (usize, usize),
    pub highlight: Type,
}

/// For each row, the columns at which a kind of text starts.
#[derive(Clone, Debug, PartialEq, Eq)]
pub struct TextHighlighting(HashMap<usize, HashMap<usize, Type>>);

/// The kind of text at the start of a row, and the columns of the row at
/// which a kind starts.
#[derive(Clone, Debug)]
pub struct LineHighlighting(Type, HashMap<usize, Type>);

impl View for TextHighlighting {
    type V = Map<usize, Map<usize, Type>>;

    closed spec fn view(&self) -> Map<usize, Map<usize, Type>> {
        self.0@.map_values(|m: HashMap<usize, Type>| m@)
    }
}

impl View for LineHighlighting {
    type V = (Type, Map<usize, Type>);

    closed spec fn view(&self) -> (Type, Map<usize, Type>) {
        (self.0, self.1@)
    }
}

impl Default for TextHighlighting {
    fn default() -> (r: TextHighlighting)
        ensures
            r@ == Map::<usize, Map<usize, Type>>::empty(),
    {
        let r = TextHighlighting(HashMap::new());
        assert(r@ =~= Map::<usize, Map<usize, Type>>::empty());
        r
    }
}

impl Default for LineHighlighting {
    fn default() -> (r: LineHighlighting)
        ensures
            r@ == (Type::Text, Map::<usize, Type>::empty()),
    {
        LineHighlighting(Type::Text, HashMap::new())
    }
}

/// The largest key of `m`.
pub open spec fn max_key(m: Map<usize, Type>) -> usize {
    choose|k: usize| m.contains_key(k) && forall|j: usize| m.contains_key(j) ==> j <= k
}

/// Row `i` has at least one style boundary.
pub open spec fn has_boundary(h: Map<usize, Map<usize, Type>>, i: int) -> bool {
    0 <= i && h.contains_key(i as usize) && h[i as usize].len() > 0
}

/// The kind in force at the start of `row`: the last one set on the nearest
/// earlier row that sets any, or plain text when none does.
pub open spec fn carried(h: Map<usize, Map<usize, Type>>, row: int) -> Type
    decreases row,
{
    if row <= 0 {
        Type::Text
    } else if has_boundary(h, row - 1) {
        h[(row - 1) as usize][max_key(h[(row - 1) as usize])]
    } else {
        carried(h, row - 1)
    }
}

/// The rows `0..len`, each with no boundary yet.
pub open spec fn empty_rows(len: usize) -> Map<usize, Map<usize, Type>> {
    Map::new(|i: usize| i < len, |i: usize| Map::<usize, Type>::empty())
}

/// Marks where `r` starts with its kind, and where it stops with plain text
/// unless something already starts there.
pub open spec fn apply_range(h: Map<usize, Map<usize, Type>>, r: Range) -> Map<usize, Map<usize, Type>> {
    let h1 = h.insert(r.start.0, h[r.start.0].insert(r.start.1, r.highlight));
    if h1[r.stop.0].contains_key(r.stop.1) {
        h1
    } else {
        h1.insert(r.stop.0, h1[r.stop.0].insert(r.stop.1, Type::Text))
    }
}

/// Applies the ranges in order.
pub open spec fn apply_ranges(h: Map<usize, Map<usize, Type>>, rs: Seq<Range>) -> Map<
    usize,
    Map<usize, Type>,
>
    decreases rs.len(),
{
    if rs.len() == 0 {
        h
    } else {
        apply_range(apply_ranges(h, rs.drop_last()), rs.last())
    }
}

/// The largest key of a non-empty map.
fn largest_key(m: &HashMap<usize, Type>) -> (r: usize)
    requires
        m@.len() > 0,
    ensures
        m@.contains_key(r),
        forall|j: usize| m@.contains_key(j) ==> j <= r,
{
    let mut largest: usize = 0;
    let mut seen = false;
    proof {
        let s = vstd::std_specs::hash::spec_keys_iter(m).remaining();
        assert(s.unref().to_set() == m@.dom());
        assert forall|j: int| 0 <= j < s.len() implies m@.contains_key(*s[j]) by {
            assert(s.unref()[j] == *s[j]);
            assert(s.unref().contains(*s[j]));
            assert(s.unref().to_set().contains(*s[j]));
        }
    }
    for k in it: m.keys()
        invariant
            forall|j: int| 0 <= j < it.index() ==> *it.seq()[j] <= largest,
            seen ==> exists|j: int| 0 <= j < it.index() && *it.seq()[j] == largest,
            it.index() > 0 ==> seen,
            it.seq() == vstd::std_specs::hash::spec_keys_iter(m).remaining(),
            it.seq().len() == m@.len(),
            seen ==> m@.contains_key(largest),
            forall|j: int| 0 <= j < it.seq().len() ==> m@.contains_key(*it.seq()[j]),
    {
        if !seen || *k >= largest {
            largest = *k;
        }
        seen = true;
    }
    largest
}

impl TextHighlighting {
    /// The highlighting of `row`, if the row has an entry.
    pub fn get_line(&self, row: usize) -> (r: Option<LineHighlighting>)
        ensures
            match r {
                Some(l) => self@.contains_key(row) && l@ == (carried(self@, row as int), self@[row]),
                None => !self@.contains_key(row),
            },
    {
        let mut i = row;
        let mut start = Type::Text;
        loop
            invariant_except_break
                start == Type::Text,
            invariant
                i <= row,
                carried(self@, row as int) == carried(self@, i as int),
            ensures
                start == carried(self@, row as int),
            decreases i,
        {
            if i == 0 {
                break;
            }
            let n = match self.0.get(&(i - 1)) {
                Some(m) => m.len(),
                None => 0,
            };
            if n != 0 {
                match self.0.get(&(i - 1)) {
                    Some(m) => {
                        proof {
                            assert(self@.contains_key((i - 1) as usize));
                            assert(self@[(i - 1) as usize] == m@);
                        }
                        let largest = largest_key(m);
                        proof {
                            let k = max_key(m@);
                            assert(m@.contains_key(k) && forall|j: usize| m@.contains_key(j) ==> j <= k);
                            assert(k == largest);
                            assert(has_boundary(self@, i - 1));
                        }
                        match m.get(&largest) {
                            Some(t) => {
                                start = *t;
                            },
                            None => {},
                        }
                    },
                    None => {},
                }
                break;
            }
            i -= 1;
        }
        match self.0.get(&row) {
            Some(m) => Some(LineHighlighting(start, m.clone())),
            None => None,
        }
    }

    /// The highlighting of rows `0..len` that the ranges give, applied in order.
    pub fn from_ranges(len: usize, range: Vec<Range>) -> (r: TextHighlighting)
        requires
            forall|k: int|
                0 <= k < range@.len() ==> #[trigger] range@[k].start.0 < len && range@[k].stop.0
                    < len,
        ensures
            r@ == apply_ranges(empty_rows(len), range@),
    {
        let mut h: HashMap<usize, HashMap<usize, Type>> = HashMap::new();
        let mut i: usize = 0;
        while i < len
            invariant
                i <= len,
                forall|j: usize| #[trigger] h@.contains_key(j) <==> j < i,
                forall|j: usize| j < i ==> (#[trigger] h@[j])@ == Map::<usize, Type>::empty(),
            decreases len - i,
        {
            let e: HashMap<usize, Type> = HashMap::new();
            h.insert(i, e);
            i += 1;
        }
        proof {
            let hv = h@.map_values(|m: HashMap<usize, Type>| m@);
            assert forall|j: usize| #[trigger] hv.contains_key(j) implies hv[j] == empty_rows(len)[j] by {
                assert(h@.contains_key(j));
            }
            assert(hv =~= empty_rows(len));
            assert(range@.take(0) =~= Seq::<Range>::empty());
        }
        let mut k: usize = 0;
        while k < range.len()
            invariant
                k <= range@.len(),
                forall|j: int|
                    0 <= j < range@.len() ==> #[trigger] range@[j].start.0 < len && range@[j].stop.0
                        < len,
                h@.map_values(|m: HashMap<usize, Type>| m@) == apply_ranges(
                    empty_rows(len),
                    range@.take(k as int),
                ),
                h@.dom() =~= Set::new(|j: usize| j < len),
            decreases range@.len() - k,
        {
            let ghost before = h@.map_values(|m: HashMap<usize, Type>| m@);
            let r = range[k];
            let (start_row, start_col) = r.start;
            let (end_row, end_col) = r.stop;
            let mut first = match h.remove(&start_row) {
                Some(m) => m,
                None => HashMap::new(),
            };
            first.insert(start_col, r.highlight);
            h.insert(start_row, first);
            let ghost mid = h@.map_values(|m: HashMap<usize, Type>| m@);
            proof {
                assert(mid =~= before.insert(start_row, before[start_row].insert(start_col, r.highlight)));
            }
            let mut last = match h.remove(&end_row) {
                Some(m) => m,
                None => HashMap::new(),
            };
            if !last.contains_key(&end_col) {
                last.insert(end_col, Type::Text);
            }
            h.insert(end_row, last);
            proof {
                assert(range@.take(k + 1).drop_last() =~= range@.take(k as int));
                assert(range@.take(k + 1).last() == r);
                assert(h@.map_values(|m: HashMap<usize, Type>| m@) =~= apply_range(before, r));
                assert(h@.dom() =~= Set::new(|j: usize| j < len));
            }
            k += 1;
        }
        proof {
            assert(range@.take(range@.len() as int) =~= range@);
        }
        TextHighlighting(h)
    }
}

impl LineHighlighting {
    /// The kind that starts at column `idx`; at column 0 the row's starting
    /// kind unless one is set there.
    pub fn get(&self, idx: usize) -> (r: Option<Type>)
        ensures
            r == if self@.1.contains_key(idx) {
                Some(self@.1[idx])
            } else if idx == 0 {
                Some(self@.0)
            } else {
                None
            },
    {
        match self.1.get(&idx) {
            Some(t) => Some(*t),
            None => if idx == 0 {
                Some(self.0)
            } else {
                None
            },
        }
    }
}

/// The colour that a theme gives each kind of text, where it gives one.
#[derive(Clone, Copy, Debug, PartialEq, Eq, Structural)]
pub struct Theme {
    number: Option<Colour>,
    operator: Option<Colour>,
    text: Option<Colour>,
    keyword: Option<Colour>,
    variable: Option<Colour>,
}

impl Theme {
    /// The colour for kind `t`, if the theme has one.
    pub closed spec fn colour_of(&self, t: Type) -> Option<Colour> {
        match t {
            Type::Number => self.number,
            Type::Operator => self.operator,
            Type::Text => self.text,
            Type::Keyword => self.keyword,
            Type::Variable => self.variable,
        }
    }

    /// A theme without colours.
    pub fn empty() -> (r: Theme)
        ensures
            forall|t: Type| r.colour_of(t) is None,
    {
        Theme { number: None, operator: None, text: None, keyword: None, variable: None }
    }

    /// Gives kind `t` colour `c`.
    pub fn set(&mut self, t: Type, c: Colour)
        ensures
            final(self).colour_of(t) == Some(c),
            forall|u: Type| u != t ==> final(self).colour_of(u) == old(self).colour_of(u),
    {
        match t {
            Type::Number => self.number = Some(c),
            Type::Operator => self.operator = Some(c),
            Type::Text => self.text = Some(c),
            Type::Keyword => self.keyword = Some(c),
            Type::Variable => self.variable = Some(c),
        }
    }

    /// The colour for kind `h`.
    pub fn get(&self, h: Type) -> (r: Colour)
        requires
            self.colour_of(h) is Some,
        ensures
            self.colour_of(h) == Some(r),
    {
        let c = match h {
            Type::Number => self.number,
            Type::Operator => self.operator,
            Type::Text => self.text,
            Type::Keyword => self.keyword,
            Type::Variable => self.variable,
        };
        match c {
            Some(c) => c,
            None => Colour::Reset,
        }
    }
}

impl Default for Theme {
    fn default() -> (r: Theme)
        ensures
            r.colour_of(Type::Number) == Some(Colour::Blue),
            r.colour_of(Type::Operator) == Some(Colour::Green),
            r.colour_of(Type::Variable) == Some(Colour::Cyan),
            r.colour_of(Type::Keyword) == Some(Colour::Yellow),
            r.colour_of(Type::Text) == Some(Colour::Reset),
    {
        Theme {
            number: Some(Colour::Blue),
            operator: Some(Colour::Green),
            text: Some(Colour::Reset),
            keyword: Some(Colour::Yellow),
            variable: Some(Colour::Cyan),
        }
    }
}

} // verus!

verus! {

/// Why a theme could not be read.
#[derive(Debug)]
pub enum ThemeError {
    Toml(toml::de::Error),
    Colour(IsNotColour),
    Type(IsNotType),
    IsntTable,
    IsntString,
}

/// Why a theme could not be read, with the offending names.
pub enum ThemeFault {
    Toml,
    Colour(Seq<char>),
    Type(Seq<char>),
    IsntTable,
    IsntString,
}

/// The fault that error `e` reports.
pub open spec fn fault_of(e: ThemeError) -> ThemeFault {
    match e {
        ThemeError::Toml(_) => ThemeFault::Toml,
        ThemeError::Colour(c) => ThemeFault::Colour(c.0@),
        ThemeError::Type(t) => ThemeFault::Type(t.0@),
        ThemeError::IsntTable => ThemeFault::IsntTable,
        ThemeError::IsntString => ThemeFault::IsntString,
    }
}

/// The colours that the entries `es` give, in order, each a kind named by
/// its key and a colour named by its string value; or the first fault.
pub open spec fn theme_entries(es: Seq<(String, TomlValue)>) -> Result<Map<Type, Colour>, ThemeFault>
    decreases es.len(),
{
    if es.len() == 0 {
        Ok(Map::empty())
    } else {
        match theme_entries(es.drop_last()) {
            Err(f) => Err(f),
            Ok(m) => {
                let k = es.last().0@;
                match es.last().1 {
                    TomlValue::Str(v) => match type_named(k) {
                        None => Err(ThemeFault::Type(k)),
                        Some(t) => match colour_named(v@) {
                            None => Err(ThemeFault::Colour(v@)),
                            Some(c) => Ok(m.insert(t, c)),
                        },
                    },
                    _ => Err(ThemeFault::IsntString),
                }
            },
        }
    }
}

/// The colours that the TOML text `s` gives a theme: a table from kind
/// names to colour names.
pub open spec fn theme_of_text(s: Seq<char>) -> Result<Map<Type, Colour>, ThemeFault> {
    match toml_document(s) {
        None => Err(ThemeFault::Toml),
        Some(TomlValue::Table(es)) => theme_entries(es@),
        Some(_) => Err(ThemeFault::IsntTable),
    }
}

impl Theme {
    /// The theme that the TOML text `s` describes.
    pub fn parse(s: &str) -> (r: Result<Theme, ThemeError>)
        ensures
            match theme_of_text(s@) {
                Ok(m) => r matches Ok(t) && forall|k: Type|
                    #[trigger] t.colour_of(k) == if m.contains_key(k) {
                        Some(m[k])
                    } else {
                        None
                    },
                Err(f) => r matches Err(e) && fault_of(e) == f,
            },
    {
        let doc = match parse_toml(s) {
            Ok(d) => d,
            Err(e) => {
                return Err(ThemeError::Toml(e));
            },
        };
        let entries = match doc {
            TomlValue::Table(es) => es,
            _ => {
                return Err(ThemeError::IsntTable);
            },
        };
        let mut theme = Theme::empty();
        let mut k: usize = 0;
        proof {
            assert(entries@.take(0) =~= Seq::<(String, TomlValue)>::empty());
        }
        while k < entries.len()
            invariant
                k <= entries@.len(),
                theme_entries(entries@.take(k as int)) matches Ok(m) && forall|t: Type|
                    #[trigger] theme.colour_of(t) == if m.contains_key(t) {
                        Some(m[t])
                    } else {
                        None
                    },
                theme_of_text(s@) == theme_entries(entries@),
            decreases entries@.len() - k,
        {
            let ghost m = theme_entries(entries@.take(k as int))->Ok_0;
            proof {
                assert(entries@.take(k + 1).drop_last() =~= entries@.take(k as int));
                assert(entries@.take(k + 1).last() == entries@[k as int]);
            }
            let (key, value) = &entries[k];
            match value {
                TomlValue::Str(v) => {
                    let t = match Type::parse(key.as_str()) {
                        Ok(t) => t,
                        Err(e) => {
                            proof {
                                lemma_entries_fault(entries@, k as int);
                            }
                            return Err(ThemeError::Type(e));
                        },
                    };
                    let c = match Colour::parse(v.as_str()) {
                        Ok(c) => c,
                        Err(e) => {
                            proof {
                                lemma_entries_fault(entries@, k as int);
                            }
                            return Err(ThemeError::Colour(e));
                        },
                    };
                    theme.set(t, c);
                },
                _ => {
                    proof {
                        lemma_entries_fault(entries@, k as int);
                    }
                    return Err(ThemeError::IsntString);
                },
            }
            k += 1;
        }
        proof {
            assert(entries@.take(k as int) =~= entries@);
        }
        Ok(theme)
    }
}

/// A fault in the first `k + 1` entries is the fault of them all.
proof fn lemma_entries_fault(es: Seq<(String, TomlValue)>, k: int)
    requires
        0 <= k < es.len(),
        theme_entries(es.take(k + 1)) is Err,
    ensures
        theme_entries(es) == theme_entries(es.take(k + 1)),
    decreases es.len() - k,
{
    if k + 1 < es.len() {
        assert(es.take(k + 2).drop_last() =~= es.take(k + 1));
        assert(theme_entries(es.take(k + 2)) == theme_entries(es.take(k + 1)));
        lemma_entries_fault(es, k + 1);
        assert(es.take(es.len() as int) =~= es);
    } else {
        assert(es.take(k + 1) =~= es);
    }
}

impl std::str::FromStr for Theme {
    type Err = ThemeError;

    fn from_str(s: &str) -> Result<Theme, ThemeError> {
        Theme::parse(s)
    }
}

/// A highlight query whose capture names cannot be laid out by index: the
/// query's text comes first in each.
#[derive(Debug)]
pub enum IllegalQuery {
    NameNotFound(String, String),
    DuplicateId(String, u32),
}

/// Why capture names cannot be laid out by index.
pub enum QueryFault {
    NameNotFound(Seq<char>),
    DuplicateId(u32),
}

/// The fault that error `e` reports.
pub open spec fn query_fault_of(e: IllegalQuery) -> QueryFault {
    match e {
        IllegalQuery::NameNotFound(_, n) => QueryFault::NameNotFound(n@),
        IllegalQuery::DuplicateId(_, i) => QueryFault::DuplicateId(i),
    }
}

/// Puts `name` in slot `idx` of table `t`, growing it with empty names as
/// needed; a missing index or a slot already named is a fault.
pub open spec fn table_step(t: Seq<Seq<char>>, name: Seq<char>, idx: Option<u32>) -> Result<
    Seq<Seq<char>>,
    QueryFault,
> {
    match idx {
        None => Err(QueryFault::NameNotFound(name)),
        Some(i) => {
            let t2 = if t.len() <= i {
                t + Seq::new((i + 1 - t.len()) as nat, |k: int| Seq::<char>::empty())
            } else {
                t
            };
            if t2[i as int].len() != 0 {
                Err(QueryFault::DuplicateId(i))
            } else {
                Ok(t2.update(i as int, name))
            }
        },
    }
}

/// The table of capture names by index, each name put where its index says,
/// in order; or the first fault.
pub open spec fn capture_table_spec(names: Seq<Seq<char>>, idx: Seq<Option<u32>>) -> Result<
    Seq<Seq<char>>,
    QueryFault,
>
    decreases names.len(),
{
    if names.len() == 0 || idx.len() < names.len() {
        Ok(seq![])
    } else {
        match capture_table_spec(names.drop_last(), idx.take(names.len() - 1)) {
            Err(f) => Err(f),
            Ok(t) => table_step(t, names.last(), idx[names.len() - 1]),
        }
    }
}

proof fn lemma_table_fault(names: Seq<Seq<char>>, idx: Seq<Option<u32>>, k: int)
    requires
        0 <= k < names.len(),
        idx.len() == names.len(),
        capture_table_spec(names.take(k + 1), idx.take(k + 1)) is Err,
    ensures
        capture_table_spec(names, idx) == capture_table_spec(names.take(k + 1), idx.take(k + 1)),
    decreases names.len() - k,
{
    if k + 1 < names.len() {
        assert(names.take(k + 2).drop_last() =~= names.take(k + 1));
        assert(idx.take(k + 2).take(k + 1) =~= idx.take(k + 1));
        assert(capture_table_spec(names.take(k + 2), idx.take(k + 2)) == capture_table_spec(
            names.take(k + 1),
            idx.take(k + 1),
        ));
        lemma_table_fault(names, idx, k + 1);
    } else {
        assert(names.take(k + 1) =~= names);
        assert(idx.take(k + 1) =~= idx);
    }
}

/// Lays the capture names `names` of a query out by index, `indices[i]`
/// being the index the query gives name `i`; `query` describes the query in
/// the errors.
pub fn capture_table(names: &Vec<String>, indices: &Vec<Option<u32>>, query: &str) -> (r: Result<
    Vec<String>,
    IllegalQuery,
>)
    requires
        names@.len() == indices@.len(),
    ensures
        match capture_table_spec(names@.map_values(|n: String| n@), indices@) {
            Ok(t) => r matches Ok(v) && v@.map_values(|n: String| n@) == t,
            Err(f) => r matches Err(e) && query_fault_of(e) == f,
        },
{
    let ghost ns = names@.map_values(|n: String| n@);
    let mut table: Vec<String> = Vec::new();
    let mut k: usize = 0;
    proof {
        assert(ns.take(0) =~= Seq::<Seq<char>>::empty());
        assert(table@.map_values(|n: String| n@) =~= Seq::<Seq<char>>::empty());
    }
    while k < names.len()
        invariant
            k <= names@.len(),
            names@.len() == indices@.len(),
            ns == names@.map_values(|n: String| n@),
            capture_table_spec(ns.take(k as int), indices@.take(k as int)) == Ok::<_, QueryFault>(
                table@.map_values(|n: String| n@),
            ),
        decreases names@.len() - k,
    {
        proof {
            assert(ns.take(k + 1).drop_last() =~= ns.take(k as int));
            assert(indices@.take(k + 1).take(k as int) =~= indices@.take(k as int));
            assert(ns.take(k + 1).last() == names@[k as int]@);
            assert(indices@.take(k + 1)[k as int] == indices@[k as int]);
        }
        let ghost t = table@.map_values(|n: String| n@);
        let i = match indices[k] {
            Some(i) => i,
            None => {
                proof {
                    lemma_table_fault(ns, indices@, k as int);
                }
                return Err(IllegalQuery::NameNotFound(query.to_owned(), names[k].clone()));
            },
        };
        let slot = i as usize;
        while table.len() <= slot
            invariant
                t.len() > slot ==> table@.len() == t.len(),
                t.len() <= slot ==> table@.len() <= slot + 1,
                t.len() <= table@.len(),
                table@.map_values(|n: String| n@) =~= t + Seq::new(
                    (table@.len() - t.len()) as nat,
                    |j: int| Seq::<char>::empty(),
                ),
            decreases slot + 1 - table@.len(),
        {
            let ghost before = table@;
            let e = String::new();
            table.push(e);
            proof {
                let f = |n: String| n@;
                assert(table@.map_values(f) =~= before.map_values(f).push(Seq::<char>::empty()));
                assert(Seq::new((table@.len() - t.len()) as nat, |j: int| Seq::<char>::empty())
                    =~= Seq::new((before.len() - t.len()) as nat, |j: int| Seq::<char>::empty()).push(
                    Seq::<char>::empty(),
                ));
            }
        }
        proof {
            if t.len() > slot {
                assert(table@.map_values(|n: String| n@) =~= t);
            }
        }
        if !table[slot].as_str().is_empty() {
            proof {
                lemma_table_fault(ns, indices@, k as int);
            }
            return Err(IllegalQuery::DuplicateId(query.to_owned(), i));
        }
        let ghost before = table@;
        table.set(slot, names[k].clone());
        proof {
            assert(table@.map_values(|n: String| n@) =~= before.map_values(|n: String| n@).update(
                slot as int,
                names@[k as int]@,
            ));
        }
        k += 1;
    }
    proof {
        assert(ns.take(k as int) =~= ns);
        assert(indices@.take(k as int) =~= indices@);
    }
    Ok(table)
}

} // verus!
