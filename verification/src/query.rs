//! Query-string arguments: `?name=value&name=value;name` pairs.
use vstd::prelude::*;
use crate::parse::line_views;
use crate::text::{chars_of, push_chars, same_chars, string_of};

verus! {

/// The arguments of a request, later pairs with a name winning over
/// earlier ones.
#[derive(Clone)]
pub struct QueryArgs {
    /// The pairs in the order given.
    pub entries: Vec<(Vec<char>, Vec<char>)>,
}

/// The arguments given by `entries`, later pairs winning.
pub open spec fn args_view(entries: Seq<(Vec<char>, Vec<char>)>) -> Map<Seq<char>, Seq<char>>
    decreases entries.len(),
{
    if entries.len() == 0 {
        Map::empty()
    } else {
        args_view(entries.drop_last()).insert(entries.last().0@, entries.last().1@)
    }
}

impl View for QueryArgs {
    type V = Map<Seq<char>, Seq<char>>;

    open spec fn view(&self) -> Map<Seq<char>, Seq<char>> {
        args_view(self.entries@)
    }
}

/// Pairs after position `i` that do not name `key` leave its value as it
/// was after the first `i` pairs.
proof fn lemma_args_suffix(entries: Seq<(Vec<char>, Vec<char>)>, key: Seq<char>, i: int)
    requires
        0 <= i <= entries.len(),
        forall|j: int| i <= j < entries.len() ==> (#[trigger] entries[j]).0@ != key,
    ensures
        args_view(entries).contains_key(key) == args_view(entries.take(i)).contains_key(key),
        args_view(entries).contains_key(key) ==> args_view(entries)[key] == args_view(
            entries.take(i),
        )[key],
    decreases entries.len() - i,
{
    if i == entries.len() {
        assert(entries.take(i) =~= entries);
    } else {
        let n = entries.len() - 1;
        assert(entries.drop_last().take(i) =~= entries.take(i));
        assert forall|j: int| i <= j < entries.drop_last().len() implies (
        #[trigger] entries.drop_last()[j]).0@ != key by {
            assert(entries.drop_last()[j] == entries[j]);
        }
        lemma_args_suffix(entries.drop_last(), key, i);
        assert(entries[n].0@ != key);
    }
}

impl QueryArgs {
    /// No arguments.
    pub fn new() -> (args: QueryArgs)
        ensures
            args@ == Map::<Seq<char>, Seq<char>>::empty(),
    {
        QueryArgs { entries: Vec::new() }
    }

    /// Sets `key` to `value`, replacing any earlier value.
    pub fn insert(&mut self, key: &str, value: &str)
        ensures
            final(self)@ == old(self)@.insert(key@, value@),
    {
        let k = chars_of(key);
        let v = chars_of(value);
        self.entries.push((k, v));
        assert(self.entries@.drop_last() =~= old(self).entries@);
    }

    /// Sets `key` to `value`, replacing any earlier value.
    pub fn insert_chars(&mut self, key: Vec<char>, value: Vec<char>)
        ensures
            final(self)@ == old(self)@.insert(key@, value@),
    {
        self.entries.push((key, value));
        assert(self.entries@.drop_last() =~= old(self).entries@);
    }

    /// The value of `key`, if it was given.
    pub fn get_chars(&self, key: &Vec<char>) -> (r: Option<Vec<char>>)
        ensures
            match r {
                Some(v) => self@.contains_key(key@) && self@[key@] == v@,
                None => !self@.contains_key(key@),
            },
    {
        let mut i: usize = self.entries.len();
        while i > 0
            invariant
                0 <= i <= self.entries@.len(),
                forall|j: int| i <= j < self.entries@.len() ==> (#[trigger] self.entries@[j]).0@
                    != key@,
            decreases i,
        {
            if same_chars(&self.entries[i - 1].0, key) {
                proof {
                    lemma_args_suffix(self.entries@, key@, i as int);
                    assert(self.entries@.take(i as int).drop_last() =~= self.entries@.take(
                        i - 1,
                    ));
                }
                return Some(self.entries[i - 1].1.clone());
            }
            i = i - 1;
        }
        proof {
            lemma_args_suffix(self.entries@, key@, 0);
            assert(self.entries@.take(0) =~= Seq::<(Vec<char>, Vec<char>)>::empty());
        }
        None
    }

    /// The value of `key`, if it was given.
    pub fn get(&self, key: &str) -> (r: Option<String>)
        ensures
            match r {
                Some(v) => self@.contains_key(key@) && self@[key@] == v@,
                None => !self@.contains_key(key@),
            },
    {
        let k = chars_of(key);
        match self.get_chars(&k) {
            Some(v) => Some(string_of(&v)),
            None => None,
        }
    }

    /// Whether `key` was given.
    pub fn contains_key(&self, key: &str) -> (b: bool)
        ensures
            b == self@.contains_key(key@),
    {
        let k = chars_of(key);
        match self.get_chars(&k) {
            Some(_) => true,
            None => false,
        }
    }
}

/// The text of a raw query string after percent-decoding it and reading
/// the bytes as UTF-8, malformed sequences becoming U+FFFD.
pub uninterp spec fn percent_decoded(raw: Seq<char>) -> Seq<char>;

/// `url::percent_encoding::percent_decode` followed by
/// `PercentDecode::decode_utf8_lossy`. The result is named
/// `percent_decoded`; its source shows that text holding no `%` comes back
/// unchanged. What it makes of `%` sequences is not stated.
#[verifier::external_body]
fn percent_decode_lossy(raw: &str) -> (r: String)
    ensures
        r@ == percent_decoded(raw@),
        !raw@.contains('%') ==> r@ == raw@,
{
    url::percent_encoding::percent_decode(raw.as_bytes()).decode_utf8_lossy().into_owned()
}

/// The texts of the successive non-overlapping matches of the regular
/// expression `pattern` in `text`, or `None` when `pattern` is not a valid
/// regular expression.
pub uninterp spec fn regex_matches(pattern: Seq<char>, text: Seq<char>) -> Option<Seq<Seq<char>>>;

/// `regex::Regex::new` and `regex::Regex::find_iter`: the texts of all
/// matches, left to right, named `regex_matches`; `None` when the pattern
/// does not compile. How matches are found is not stated.
#[verifier::external_body]
fn regex_find_all(pattern: &str, text: &str) -> (r: Option<Vec<String>>)
    ensures
        r.deep_view() == regex_matches(pattern@, text@),
{
    match regex::Regex::new(pattern) {
        Ok(re) => Some(re.find_iter(text).map(|m| m.as_str().to_string()).collect()),
        Err(_) => None,
    }
}

/// A separator, then a name, then optionally `=` and a value.
pub open spec fn query_pattern() -> Seq<char> {
    "([?&;])([^=&;#]+)(=([^&;#]+))?"@
}

/// Where the first `=` of `m` is, or its length when there is none.
pub open spec fn eq_index(m: Seq<char>) -> int
    decreases m.len(),
{
    if m.len() == 0 {
        0
    } else if m[0] == '=' {
        0
    } else {
        1 + eq_index(m.drop_first())
    }
}

/// A match can be read: its first character is a one-byte character other
/// than `=`.
pub open spec fn match_readable(m: Seq<char>) -> bool {
    m.len() >= 1 && m[0] != '=' && (m[0] as u32) < 0x80
}

/// The name of a match: what stands between its first character and its
/// first `=`.
pub open spec fn match_name(m: Seq<char>) -> Seq<char> {
    m.take(eq_index(m)).drop_first()
}

/// The value of a match: what follows its first `=`, or nothing.
pub open spec fn match_value(m: Seq<char>) -> Seq<char> {
    if eq_index(m) < m.len() {
        m.skip(eq_index(m) + 1)
    } else {
        Seq::empty()
    }
}

/// The arguments read from the matches, later ones winning.
pub open spec fn matches_args(ms: Seq<Seq<char>>) -> Map<Seq<char>, Seq<char>>
    decreases ms.len(),
{
    if ms.len() == 0 {
        Map::empty()
    } else {
        matches_args(ms.drop_last()).insert(match_name(ms.last()), match_value(ms.last()))
    }
}

proof fn lemma_eq_index(m: Seq<char>)
    ensures
        0 <= eq_index(m) <= m.len(),
        forall|j: int| 0 <= j < eq_index(m) ==> m[j] != '=',
        eq_index(m) < m.len() ==> m[eq_index(m)] == '=',
    decreases m.len(),
{
    if m.len() > 0 && m[0] != '=' {
        lemma_eq_index(m.drop_first());
        assert forall|j: int| 0 <= j < eq_index(m) implies m[j] != '=' by {
            if j > 0 {
                assert(m[j] == m.drop_first()[j - 1]);
            }
        }
    }
}

/// Every match can be read.
pub open spec fn all_matches_readable(ms: Seq<Seq<char>>) -> bool {
    forall|i: int| 0 <= i < ms.len() ==> match_readable(#[trigger] ms[i])
}

/// Reads a match into its name and value.
fn read_match(m: &Vec<char>) -> (r: (Vec<char>, Vec<char>))
    requires
        match_readable(m@),
    ensures
        r.0@ == match_name(m@),
        r.1@ == match_value(m@),
{
    proof {
        lemma_eq_index(m@);
    }
    let mut e: usize = 0;
    while e < m.len() && m[e] != '='
        invariant
            0 <= e <= m@.len(),
            e <= eq_index(m@),
            forall|j: int| 0 <= j < eq_index(m@) ==> m@[j] != '=',
            eq_index(m@) < m@.len() ==> m@[eq_index(m@)] == '=',
            eq_index(m@) <= m@.len(),
        decreases m@.len() - e,
    {
        e = e + 1;
    }
    assert(e == eq_index(m@));
    let name = crate::text::slice_chars(m, 1, e);
    assert(name@ =~= m@.take(e as int).drop_first());
    let value = if e < m.len() {
        let v = crate::text::slice_chars(m, e + 1, m.len());
        assert(v@ =~= m@.skip(e + 1));
        v
    } else {
        Vec::new()
    };
    proof {
        if e >= m.len() {
            assert(value@ =~= Seq::<char>::empty());
        }
    }
    (name, value)
}

/// Whether every match can be read.
pub fn all_readable(ms: &Vec<String>) -> (b: bool)
    ensures
        b == forall|i: int| 0 <= i < ms@.len() ==> match_readable(#[trigger] ms@[i]@),
{
    let mut i: usize = 0;
    while i < ms.len()
        invariant
            0 <= i <= ms@.len(),
            forall|j: int| 0 <= j < i ==> match_readable(#[trigger] ms@[j]@),
        decreases ms@.len() - i,
    {
        let m = chars_of(ms[i].as_str());
        if !(m.len() >= 1 && m[0] != '=' && (m[0] as u32) < 0x80) {
            return false;
        }
        i = i + 1;
    }
    true
}

/// The arguments named by the matches of the query pattern: each match's
/// name (without its leading separator) set to its value.
pub fn args_from_matches(ms: &Vec<String>) -> (args: QueryArgs)
    requires
        forall|i: int| 0 <= i < ms@.len() ==> match_readable(#[trigger] ms@[i]@),
    ensures
        args@ == matches_args(line_views(ms@)),
{
    let ghost views = line_views(ms@);
    let mut args = QueryArgs::new();
    let mut i: usize = 0;
    while i < ms.len()
        invariant
            0 <= i <= ms@.len(),
            views == line_views(ms@),
            forall|j: int| 0 <= j < ms@.len() ==> match_readable(#[trigger] ms@[j]@),
            args@ == matches_args(views.take(i as int)),
        decreases ms@.len() - i,
    {
        let m = chars_of(ms[i].as_str());
        assert(match_readable(ms@[i as int]@));
        let (name, value) = read_match(&m);
        args.insert_chars(name, value);
        assert(views.take(i as int + 1).drop_last() =~= views.take(i as int));
        i = i + 1;
    }
    assert(views.take(i as int) =~= views);
    args
}

/// The arguments of a raw query string: percent-decoded, then the matches
/// of the query pattern in it (with `&` put in front) read as names and
/// values. `None` when the pattern does not compile or a match cannot be
/// read.
pub fn parse_query(raw: &str) -> (r: Option<QueryArgs>)
    ensures
        match regex_matches(query_pattern(), seq!['&'] + percent_decoded(raw@)) {
            Some(ms) => if all_matches_readable(ms) {
                r matches Some(a) && a@ == matches_args(ms)
            } else {
                r is None
            },
            None => r is None,
        },
{
    let decoded = percent_decode_lossy(raw);
    let mut text = String::new();
    let amp: Vec<char> = vec!['&'];
    push_chars(&mut text, &amp);
    let decoded_chars = chars_of(decoded.as_str());
    push_chars(&mut text, &decoded_chars);
    assert(text@ =~= seq!['&'] + percent_decoded(raw@));
    let pattern = "([?&;])([^=&;#]+)(=([^&;#]+))?";
    assert(pattern@ == query_pattern());
    let found = regex_find_all(pattern, text.as_str());
    assert(found.deep_view() == regex_matches(query_pattern(), seq!['&'] + percent_decoded(raw@)));
    match found {
        Some(ms) => {
            assert(ms.deep_view() =~= line_views(ms@));
            assert(regex_matches(query_pattern(), seq!['&'] + percent_decoded(raw@)) == Some(line_views(ms@)));
            if all_readable(&ms) {
                proof {
                    let v = line_views(ms@);
                    assert forall|i: int| 0 <= i < v.len() implies match_readable(#[trigger] v[i]) by {
                        assert(v[i] == ms@[i]@);
                    }
                }
                let a = args_from_matches(&ms);
                assert(a@ == matches_args(line_views(ms@)));
                assert(all_matches_readable(line_views(ms@)));
                Some(a)
            } else {
                proof {
                    let v = line_views(ms@);
                    let i = choose|i: int| 0 <= i < ms@.len() && !match_readable(#[trigger] ms@[i]@);
                    assert(v[i] == ms@[i]@);
                    assert(!match_readable(v[i]));
                    assert(!all_matches_readable(v));
                }
                None
            }
        },
        None => None,
    }
}

} // verus!
