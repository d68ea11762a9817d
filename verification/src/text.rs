//! Text as sequences of characters: splitting, trimming, replacing,
//! reading and writing numbers.
use vstd::prelude::*;
use vstd::std_specs::iter::IteratorSpec;

verus! {

broadcast use vstd::string::group_string_axioms;

/// `std::string::String::push`: appends one character.
#[verifier::external_body]
pub(crate) fn push_char(s: &mut String, c: char)
    ensures
        final(s)@ == old(s)@.push(c),
{
    s.push(c);
}

/// Whether `u` is the code point of a character: at most U+10FFFF and not
/// a surrogate.
pub open spec fn is_char_code(u: u32) -> bool {
    u <= 0xD7FF || (0xE000 <= u && u <= 0x10FFFF)
}

/// `std::char::from_u32`: the character with code point `u`, `None` when
/// `u` is not a character's code point.
#[verifier::external_body]
pub(crate) fn char_from_u32(u: u32) -> (r: Option<char>)
    ensures
        r is Some <==> is_char_code(u),
        r matches Some(c) ==> c as u32 == u,
{
    std::char::from_u32(u)
}

/// A character is the character of its code point.
pub proof fn lemma_char_of_code(c: char, u: u32)
    requires
        c as u32 == u,
    ensures
        u as char == c,
{
}

/// The characters of `s`, in order.
pub fn chars_of(s: &str) -> (v: Vec<char>)
    ensures
        v@ == s@,
{
    let mut v: Vec<char> = Vec::new();
    for c in it: s.chars()
        invariant
            v@ == it.seq().take(it.index() as int),
            it.seq() == s@,
    {
        v.push(c);
    }
    assert(v@ =~= s@);
    v
}

/// A string holding the characters of `v`.
pub fn string_of(v: &Vec<char>) -> (s: String)
    ensures
        s@ == v@,
{
    let mut s = String::new();
    let mut i: usize = 0;
    while i < v.len()
        invariant
            0 <= i <= v@.len(),
            s@ == v@.take(i as int),
        decreases v@.len() - i,
    {
        push_char(&mut s, v[i]);
        assert(v@.take(i as int + 1) =~= v@.take(i as int).push(v@[i as int]));
        i = i + 1;
    }
    assert(v@.take(i as int) =~= v@);
    s
}

/// Appends the characters of `v` to `s`.
pub fn push_chars(s: &mut String, v: &Vec<char>)
    ensures
        final(s)@ == old(s)@ + v@,
{
    let mut i: usize = 0;
    while i < v.len()
        invariant
            0 <= i <= v@.len(),
            s@ == old(s)@ + v@.take(i as int),
        decreases v@.len() - i,
    {
        push_char(s, v[i]);
        assert(v@.take(i as int + 1) =~= v@.take(i as int).push(v@[i as int]));
        assert(old(s)@ + v@.take(i as int + 1) =~= (old(s)@ + v@.take(i as int)).push(v@[i as int]));
        i = i + 1;
    }
    assert(v@.take(i as int) =~= v@);
}

/// Appends the characters of `v` to `out`.
pub fn extend_chars(out: &mut Vec<char>, v: &Vec<char>)
    ensures
        final(out)@ == old(out)@ + v@,
{
    let mut i: usize = 0;
    while i < v.len()
        invariant
            0 <= i <= v@.len(),
            out@ == old(out)@ + v@.take(i as int),
        decreases v@.len() - i,
    {
        out.push(v[i]);
        assert(v@.take(i as int + 1) =~= v@.take(i as int).push(v@[i as int]));
        assert(old(out)@ + v@.take(i as int + 1) =~= (old(out)@ + v@.take(i as int)).push(v@[i as int]));
        i = i + 1;
    }
    assert(v@.take(i as int) =~= v@);
}

/// The pieces of `s` between occurrences of `sep` (one more piece than
/// there are occurrences).
pub open spec fn split_on(s: Seq<char>, sep: char) -> Seq<Seq<char>>
    decreases s.len(),
{
    if s.len() == 0 {
        seq![Seq::<char>::empty()]
    } else {
        let p = split_on(s.drop_last(), sep);
        if s.last() == sep {
            p.push(Seq::<char>::empty())
        } else {
            p.update(p.len() - 1, p.last().push(s.last()))
        }
    }
}

/// There is always at least one piece.
pub proof fn lemma_split_nonempty(s: Seq<char>, sep: char)
    ensures
        split_on(s, sep).len() >= 1,
    decreases s.len(),
{
    if s.len() > 0 {
        lemma_split_nonempty(s.drop_last(), sep);
    }
}

/// Splits `s` at every occurrence of `sep`.
pub fn split_chars(s: &Vec<char>, sep: char) -> (pieces: Vec<Vec<char>>)
    ensures
        pieces@.map_values(|p: Vec<char>| p@) == split_on(s@, sep),
{
    let mut done: Vec<Vec<char>> = Vec::new();
    let mut cur: Vec<char> = Vec::new();
    let mut i: usize = 0;
    while i < s.len()
        invariant
            0 <= i <= s@.len(),
            done@.map_values(|p: Vec<char>| p@).push(cur@) == split_on(s@.take(i as int), sep),
        decreases s@.len() - i,
    {
        let c = s[i];
        let ghost before = split_on(s@.take(i as int), sep);
        proof {
            lemma_split_nonempty(s@.take(i as int), sep);
            assert(s@.take(i as int + 1).drop_last() =~= s@.take(i as int));
        }
        if c == sep {
            let finished = cur;
            done.push(finished);
            cur = Vec::new();
            assert(done@.map_values(|p: Vec<char>| p@).push(cur@) =~= before.push(Seq::<char>::empty()));
        } else {
            cur.push(c);
            assert(done@.map_values(|p: Vec<char>| p@).push(cur@) =~= before.update(
                before.len() - 1,
                before.last().push(c),
            ));
        }
        i = i + 1;
    }
    assert(s@.take(i as int) =~= s@);
    done.push(cur);
    done
}

/// Whether `c` occurs in `v`.
pub fn has_char(v: &Vec<char>, c: char) -> (b: bool)
    ensures
        b == v@.contains(c),
{
    let mut i: usize = 0;
    while i < v.len()
        invariant
            0 <= i <= v@.len(),
            forall|j: int| 0 <= j < i ==> v@[j] != c,
        decreases v@.len() - i,
    {
        if v[i] == c {
            return true;
        }
        i = i + 1;
    }
    false
}

/// Whether `pat` occurs in `s` starting at position `i`.
pub open spec fn occurs_at(s: Seq<char>, pat: Seq<char>, i: int) -> bool {
    0 <= i && i + pat.len() <= s.len() && s.subrange(i, i + pat.len()) == pat
}

/// Whether `pat` occurs in `s` starting at position `i`.
pub fn matches_at(s: &Vec<char>, i: usize, pat: &Vec<char>) -> (b: bool)
    ensures
        b == occurs_at(s@, pat@, i as int),
{
    if i > s.len() || pat.len() > s.len() - i {
        return false;
    }
    let n = s.len();
    let mut k: usize = 0;
    while k < pat.len()
        invariant
            n == s@.len(),
            0 <= k <= pat@.len(),
            i + pat@.len() <= s@.len(),
            forall|j: int| 0 <= j < k ==> s@[i + j] == pat@[j],
        decreases pat@.len() - k,
    {
        assert(i + k < s@.len());
        if s[i + k] != pat[k] {
            assert(s@.subrange(i as int, i + pat@.len())[k as int] != pat@[k as int]);
            return false;
        }
        k = k + 1;
    }
    assert(s@.subrange(i as int, i + pat@.len()) =~= pat@);
    true
}

/// `s` with every occurrence of `pat`, taken left to right without
/// overlap, replaced by `rep`.
pub open spec fn replace_all(s: Seq<char>, pat: Seq<char>, rep: Seq<char>) -> Seq<char>
    decreases s.len(),
{
    if pat.len() == 0 || s.len() < pat.len() {
        s
    } else if s.take(pat.len() as int) == pat {
        rep + replace_all(s.skip(pat.len() as int), pat, rep)
    } else {
        seq![s[0]] + replace_all(s.skip(1), pat, rep)
    }
}

/// Replaces every occurrence of `pat` in `s`, left to right, by `rep`.
pub fn replace_chars(s: &Vec<char>, pat: &Vec<char>, rep: &Vec<char>) -> (r: Vec<char>)
    requires
        pat@.len() > 0,
    ensures
        r@ == replace_all(s@, pat@, rep@),
{
    let mut out: Vec<char> = Vec::new();
    let mut i: usize = 0;
    proof {
        assert(s@.skip(0) =~= s@);
    }
    while i < s.len()
        invariant
            0 <= i <= s@.len(),
            pat@.len() > 0,
            out@ + replace_all(s@.skip(i as int), pat@, rep@) == replace_all(s@, pat@, rep@),
        decreases s@.len() - i,
    {
        let ghost rest = s@.skip(i as int);
        if matches_at(s, i, pat) {
            proof {
                assert(rest.take(pat@.len() as int) =~= s@.subrange(i as int, i + pat@.len()));
                assert(rest.skip(pat@.len() as int) =~= s@.skip(i + pat@.len()));
                assert(out@ + rep@ + replace_all(s@.skip(i + pat@.len()), pat@, rep@) =~= out@ + (
                rep@ + replace_all(s@.skip(i + pat@.len()), pat@, rep@)));
            }
            extend_chars(&mut out, rep);
            i = i + pat.len();
        } else {
            proof {
                if rest.len() >= pat@.len() {
                    assert(rest.take(pat@.len() as int) =~= s@.subrange(i as int, i + pat@.len()));
                    assert(rest.skip(1) =~= s@.skip(i + 1));
                } else {
                    assert(rest =~= seq![s@[i as int]] + s@.skip(i + 1));
                    assert(replace_all(s@.skip(i + 1), pat@, rep@) == s@.skip(i + 1));
                }
                assert(rest.skip(1) =~= s@.skip(i + 1));
                assert(out@.push(s@[i as int]) + replace_all(s@.skip(i + 1), pat@, rep@) =~= out@
                    + (seq![s@[i as int]] + replace_all(s@.skip(i + 1), pat@, rep@)));
            }
            out.push(s[i]);
            i = i + 1;
        }
    }
    proof {
        assert(s@.skip(i as int) =~= Seq::<char>::empty());
        assert(out@ + Seq::<char>::empty() =~= out@);
    }
    out
}

/// The decimal digit for `d`.
pub open spec fn digit_char(d: nat) -> char {
    if d == 0 { '0' }
    else if d == 1 { '1' }
    else if d == 2 { '2' }
    else if d == 3 { '3' }
    else if d == 4 { '4' }
    else if d == 5 { '5' }
    else if d == 6 { '6' }
    else if d == 7 { '7' }
    else if d == 8 { '8' }
    else { '9' }
}

/// `n` written in decimal, without leading zeros.
pub open spec fn decimal(n: nat) -> Seq<char>
    decreases n,
{
    if n < 10 {
        seq![digit_char(n)]
    } else {
        decimal(n / 10).push(digit_char(n % 10))
    }
}

/// The decimal digit for `d`.
fn digit_of(d: u64) -> (c: char)
    requires
        d < 10,
    ensures
        c == digit_char(d as nat),
{
    match d {
        0 => '0',
        1 => '1',
        2 => '2',
        3 => '3',
        4 => '4',
        5 => '5',
        6 => '6',
        7 => '7',
        8 => '8',
        _ => '9',
    }
}

/// `n` written in decimal.
pub fn decimal_chars(n: u64) -> (v: Vec<char>)
    ensures
        v@ == decimal(n as nat),
    decreases n,
{
    if n < 10 {
        let mut v: Vec<char> = Vec::new();
        v.push(digit_of(n));
        assert(v@ =~= seq![digit_char(n as nat)]);
        v
    } else {
        let mut v = decimal_chars(n / 10);
        v.push(digit_of(n % 10));
        v
    }
}

/// The full-width form of an ASCII digit; other characters unchanged.
pub open spec fn full_width_char(c: char) -> char {
    if c == '0' { '０' }
    else if c == '1' { '１' }
    else if c == '2' { '２' }
    else if c == '3' { '３' }
    else if c == '4' { '４' }
    else if c == '5' { '５' }
    else if c == '6' { '６' }
    else if c == '7' { '７' }
    else if c == '8' { '８' }
    else if c == '9' { '９' }
    else { c }
}

/// Every ASCII digit of `s` in its full-width form.
pub open spec fn full_width(s: Seq<char>) -> Seq<char> {
    s.map_values(|c: char| full_width_char(c))
}

/// The full-width form of an ASCII digit; other characters unchanged.
pub fn full_width_of(c: char) -> (r: char)
    ensures
        r == full_width_char(c),
{
    match c {
        '0' => '０',
        '1' => '１',
        '2' => '２',
        '3' => '３',
        '4' => '４',
        '5' => '５',
        '6' => '６',
        '7' => '７',
        '8' => '８',
        '9' => '９',
        _ => c,
    }
}

/// Whether `c` is white space in Unicode's sense (the White_Space property).
pub open spec fn is_space(c: char) -> bool {
    let u = c as u32;
    (0x9 <= u && u <= 0xD) || u == 0x20 || u == 0x85 || u == 0xA0 || u == 0x1680 || (0x2000 <= u
        && u <= 0x200A) || u == 0x2028 || u == 0x2029 || u == 0x202F || u == 0x205F || u == 0x3000
}

/// Whether `c` is white space in Unicode's sense (the White_Space property).
pub fn is_space_char(c: char) -> (b: bool)
    ensures
        b == is_space(c),
{
    let u = c as u32;
    (0x9 <= u && u <= 0xD) || u == 0x20 || u == 0x85 || u == 0xA0 || u == 0x1680 || (0x2000 <= u
        && u <= 0x200A) || u == 0x2028 || u == 0x2029 || u == 0x202F || u == 0x205F || u == 0x3000
}

/// `s` without leading white space.
pub open spec fn trim_start(s: Seq<char>) -> Seq<char>
    decreases s.len(),
{
    if s.len() > 0 && is_space(s[0]) {
        trim_start(s.drop_first())
    } else {
        s
    }
}

/// `s` without trailing white space.
pub open spec fn trim_end(s: Seq<char>) -> Seq<char>
    decreases s.len(),
{
    if s.len() > 0 && is_space(s.last()) {
        trim_end(s.drop_last())
    } else {
        s
    }
}

/// `s` without leading or trailing white space.
pub open spec fn trim(s: Seq<char>) -> Seq<char> {
    trim_end(trim_start(s))
}

/// `s` without leading or trailing white space.
pub fn trim_chars(s: &Vec<char>) -> (r: Vec<char>)
    ensures
        r@ == trim(s@),
{
    let mut i: usize = 0;
    proof {
        assert(s@.skip(0) =~= s@);
    }
    while i < s.len() && is_space_char(s[i])
        invariant
            0 <= i <= s@.len(),
            trim_start(s@.skip(i as int)) == trim_start(s@),
        decreases s@.len() - i,
    {
        assert(s@.skip(i as int).drop_first() =~= s@.skip(i + 1));
        i = i + 1;
    }
    let ghost start = s@.skip(i as int);
    assert(trim_start(start) == start);
    let mut j: usize = s.len();
    proof {
        assert(start.take(j - i) =~= start);
    }
    while j > i && is_space_char(s[j - 1])
        invariant
            i <= j <= s@.len(),
            start == s@.skip(i as int),
            trim_end(start.take(j - i)) == trim_end(start),
        decreases j,
    {
        assert(start.take(j - i).drop_last() =~= start.take(j - 1 - i));
        assert(start.take(j - i).last() == s@[j - 1]);
        j = j - 1;
    }
    let mut r: Vec<char> = Vec::new();
    let mut k: usize = i;
    while k < j
        invariant
            i <= k <= j <= s@.len(),
            r@ == s@.subrange(i as int, k as int),
        decreases j - k,
    {
        r.push(s[k]);
        assert(s@.subrange(i as int, k + 1) =~= s@.subrange(i as int, k as int).push(s@[k as int]));
        k = k + 1;
    }
    proof {
        assert(r@ =~= start.take(j - i));
        let t = start.take(j - i);
        if t.len() > 0 {
            assert(t.last() == s@[j - 1]);
        }
        assert(trim_end(t) == t);
    }
    r
}

/// The value of a digit in base `radix` (letters count from ten, in
/// either case), if it is one.
pub open spec fn digit_value(c: char, radix: nat) -> Option<nat> {
    let u = c as u32;
    let v: int = if 0x30 <= u && u <= 0x39 {
        u - 0x30
    } else if 0x61 <= u && u <= 0x7A {
        u - 0x61 + 10
    } else if 0x41 <= u && u <= 0x5A {
        u - 0x41 + 10
    } else {
        99
    };
    if v < radix {
        Some(v as nat)
    } else {
        None
    }
}

/// The value of a string of digits in base `radix`, if all are digits.
pub open spec fn digits_value(s: Seq<char>, radix: nat) -> Option<nat>
    decreases s.len(),
{
    if s.len() == 0 {
        Some(0)
    } else {
        match (digits_value(s.drop_last(), radix), digit_value(s.last(), radix)) {
            (Some(a), Some(d)) => Some(a * radix + d),
            _ => None,
        }
    }
}

/// The number that `s` denotes in base `radix`, read as an unsigned
/// integer type does (an optional `+`, then at least one digit), if it
/// is at most `max`.
pub open spec fn parse_unsigned(s: Seq<char>, radix: nat, max: nat) -> Option<nat> {
    let digits = if s.len() > 0 && s[0] == '+' {
        s.drop_first()
    } else {
        s
    };
    if digits.len() == 0 {
        None
    } else {
        match digits_value(digits, radix) {
            Some(v) => if v <= max {
                Some(v)
            } else {
                None
            },
            None => None,
        }
    }
}

/// The value of a digit in base `radix`, if it is one.
fn digit_value_of(c: char, radix: u64) -> (r: Option<u64>)
    requires
        2 <= radix <= 36,
    ensures
        match digit_value(c, radix as nat) {
            Some(v) => r == Some(v as u64),
            None => r is None,
        },
{
    let u = c as u32;
    let v: u64 = if 0x30 <= u && u <= 0x39 {
        (u - 0x30) as u64
    } else if 0x61 <= u && u <= 0x7A {
        (u - 0x61 + 10) as u64
    } else if 0x41 <= u && u <= 0x5A {
        (u - 0x41 + 10) as u64
    } else {
        99
    };
    if v < radix {
        Some(v)
    } else {
        None
    }
}

/// Digits that only grow: a longer prefix has no smaller value.
proof fn lemma_digits_grow(s: Seq<char>, radix: nat, k: int)
    requires
        0 <= k <= s.len(),
        radix >= 1,
    ensures
        match digits_value(s.take(k), radix) {
            Some(a) => digits_value(s, radix) matches Some(b) ==> a <= b,
            None => digits_value(s, radix) is None,
        },
    decreases s.len() - k,
{
    if k == s.len() {
        assert(s.take(k) =~= s);
    } else {
        assert(s.take(k + 1).drop_last() =~= s.take(k));
        lemma_digits_grow(s, radix, k + 1);
        match digits_value(s.take(k), radix) {
            Some(a) => {
                match digit_value(s[k], radix) {
                    Some(d) => {
                        assert(a * radix + d >= a) by (nonlinear_arith)
                            requires radix >= 1;
                    },
                    None => {},
                }
            },
            None => {},
        }
    }
}

/// Reads `s` as an unsigned number in base `radix` no greater than `max`,
/// as `from_str_radix` of an unsigned integer type does.
pub fn parse_unsigned_chars(s: &Vec<char>, radix: u64, max: u64) -> (r: Option<u64>)
    requires
        2 <= radix <= 36,
    ensures
        match parse_unsigned(s@, radix as nat, max as nat) {
            Some(v) => r == Some(v as u64),
            None => r is None,
        },
{
    let start: usize = if s.len() > 0 && s[0] == '+' { 1 } else { 0 };
    let ghost digits = s@.skip(start as int);
    proof {
        if start == 1 {
            assert(digits =~= s@.drop_first());
        } else {
            assert(digits =~= s@);
        }
    }
    if s.len() == start {
        return None;
    }
    let mut value: u64 = 0;
    let mut i: usize = start;
    while i < s.len()
        invariant
            start <= i <= s@.len(),
            2 <= radix <= 36,
            digits == s@.skip(start as int),
            digits == (if s@.len() > 0 && s@[0] == '+' { s@.drop_first() } else { s@ }),
            digits_value(digits.take(i - start), radix as nat) == Some(value as nat),
            value <= max,
        decreases s@.len() - i,
    {
        let c = s[i];
        proof {
            assert(digits.take(i + 1 - start).drop_last() =~= digits.take(i - start));
            assert(digits.take(i + 1 - start).last() == c);
        }
        match digit_value_of(c, radix) {
            Some(d) => {
                if d > max || value > (max - d) / radix {
                    proof {
                        if d <= max {
                            assert(value * radix + d > max) by (nonlinear_arith)
                                requires value > (max - d) / radix as int, radix >= 2, d <= max;
                        }
                        assert(value * radix + d > max) by (nonlinear_arith)
                            requires value >= 0, radix >= 2, d > max || value * radix + d > max;
                        assert(digits_value(digits.take(i + 1 - start), radix as nat) == Some(
                            (value * radix + d) as nat,
                        ));
                        assert(digits.len() > 0);
                        lemma_digits_grow(digits, radix as nat, i + 1 - start);
                        assert(digits_value(digits, radix as nat) matches Some(b) ==> b > max);
                        assert(parse_unsigned(s@, radix as nat, max as nat) is None);
                        lemma_digits_grow(digits, radix as nat, i + 1 - start);
                    }
                    return None;
                }
                proof {
                    assert(value * radix + d <= max) by (nonlinear_arith)
                        requires value <= (max - d) / radix as int, radix >= 2, d <= max;
                }
                value = value * radix + d;
            },
            None => {
                proof {
                    assert(digits_value(digits.take(i + 1 - start), radix as nat) is None);
                    lemma_digits_grow(digits, radix as nat, i + 1 - start);
                }
                return None;
            },
        }
        i = i + 1;
    }
    proof {
        assert(digits.take(i - start) =~= digits);
    }
    Some(value)
}

/// A line without the carriage return that ended it, if any.
pub open spec fn strip_cr(l: Seq<char>) -> Seq<char> {
    if l.len() > 0 && l.last() == '\r' {
        l.drop_last()
    } else {
        l
    }
}

/// The lines of `s` as `str::lines` gives them: split at each line feed,
/// with no empty line after a final line feed, and a carriage return
/// before a line feed taken off.
pub open spec fn lines_of(s: Seq<char>) -> Seq<Seq<char>> {
    let p = split_on(s, '\n');
    let ended = p.drop_last().map_values(|l: Seq<char>| strip_cr(l));
    if p.last().len() == 0 {
        ended
    } else {
        ended.push(p.last())
    }
}

/// A line without the carriage return that ended it, if any.
fn strip_cr_chars(l: Vec<char>) -> (r: Vec<char>)
    ensures
        r@ == strip_cr(l@),
{
    let mut l = l;
    if l.len() > 0 && l[l.len() - 1] == '\r' {
        l.pop();
    }
    l
}

/// The lines of `s`, as `str::lines` gives them.
pub fn lines_chars(s: &Vec<char>) -> (lines: Vec<Vec<char>>)
    ensures
        lines@.map_values(|l: Vec<char>| l@) == lines_of(s@),
{
    let pieces = split_chars(s, '\n');
    let ghost p = split_on(s@, '\n');
    proof {
        lemma_split_nonempty(s@, '\n');
    }
    let n = pieces.len();
    let mut out: Vec<Vec<char>> = Vec::new();
    let mut i: usize = 0;
    while i + 1 < n
        invariant
            n == pieces@.len(),
            n >= 1,
            pieces@.map_values(|l: Vec<char>| l@) == p,
            0 <= i <= n - 1,
            out@.map_values(|l: Vec<char>| l@) == p.take(i as int).map_values(|l: Seq<char>| strip_cr(l)),
        decreases n - i,
    {
        let piece = pieces[i].clone();
        assert(piece@ == p[i as int]);
        let line = strip_cr_chars(piece);
        out.push(line);
        assert(p.take(i as int + 1).map_values(|l: Seq<char>| strip_cr(l)) =~= p.take(i as int).map_values(|l: Seq<char>| strip_cr(l)).push(strip_cr(p[i as int])));
        assert(out@.map_values(|l: Vec<char>| l@) =~= p.take(i as int).map_values(|l: Seq<char>| strip_cr(l)).push(strip_cr(p[i as int])));
        i = i + 1;
    }
    assert(p.take(i as int) =~= p.drop_last());
    let last = pieces[n - 1].clone();
    assert(last@ == p.last());
    if last.len() > 0 {
        out.push(last);
        assert(out@.map_values(|l: Vec<char>| l@) =~= p.drop_last().map_values(|l: Seq<char>| strip_cr(l)).push(p.last()));
    }
    out
}

/// The first position at or after `i` where `pat` occurs in `s`, if any.
pub open spec fn find_from(s: Seq<char>, pat: Seq<char>, i: int) -> Option<int>
    decreases s.len() + 1 - i,
{
    if i < 0 || i + pat.len() > s.len() {
        None
    } else if occurs_at(s, pat, i) {
        Some(i)
    } else {
        find_from(s, pat, i + 1)
    }
}

/// Whether `pat` occurs somewhere in `s`.
pub open spec fn contains_seq(s: Seq<char>, pat: Seq<char>) -> bool {
    find_from(s, pat, 0) is Some
}

/// The first two pieces of `s` split at the non-overlapping occurrences of
/// `pat`, taken left to right (the second is empty when `pat` does not occur).
pub open spec fn first_two_pieces(s: Seq<char>, pat: Seq<char>) -> (Seq<char>, Seq<char>) {
    match find_from(s, pat, 0) {
        None => (s, Seq::empty()),
        Some(f) => {
            let rest = s.skip(f + pat.len());
            match find_from(rest, pat, 0) {
                None => (s.take(f), rest),
                Some(g) => (s.take(f), rest.take(g)),
            }
        }
    }
}

/// A found position is where `pat` occurs, within bounds.
pub proof fn lemma_find_from(s: Seq<char>, pat: Seq<char>, i: int)
    ensures
        find_from(s, pat, i) matches Some(f) ==> i <= f && occurs_at(s, pat, f),
    decreases s.len() + 1 - i,
{
    if !(i < 0 || i + pat.len() > s.len()) && !occurs_at(s, pat, i) {
        lemma_find_from(s, pat, i + 1);
    }
}

/// The first position at or after `i` where `pat` occurs in `s`, if any.
pub fn find_chars(s: &Vec<char>, pat: &Vec<char>, i: usize) -> (r: Option<usize>)
    requires
        pat@.len() > 0,
    ensures
        match find_from(s@, pat@, i as int) {
            Some(f) => r == Some(f as usize),
            None => r is None,
        },
        r matches Some(f) ==> find_from(s@, pat@, i as int) == Some(f as int) && occurs_at(s@, pat@, f as int),
    decreases s@.len() - i,
{
    if i > s.len() || pat.len() > s.len() - i {
        return None;
    }
    proof {
        lemma_find_from(s@, pat@, i as int);
    }
    if matches_at(s, i, pat) {
        Some(i)
    } else {
        find_chars(s, pat, i + 1)
    }
}

/// The characters of `s` from position `from` to position `to`.
pub fn slice_chars(s: &Vec<char>, from: usize, to: usize) -> (r: Vec<char>)
    requires
        from <= to <= s@.len(),
    ensures
        r@ == s@.subrange(from as int, to as int),
{
    let mut r: Vec<char> = Vec::new();
    let mut k: usize = from;
    while k < to
        invariant
            from <= k <= to <= s@.len(),
            r@ == s@.subrange(from as int, k as int),
        decreases to - k,
    {
        r.push(s[k]);
        assert(s@.subrange(from as int, k + 1) =~= s@.subrange(from as int, k as int).push(s@[k as int]));
        k = k + 1;
    }
    r
}

/// The first two pieces of `s` split at occurrences of `pat`.
pub fn first_two_pieces_chars(s: &Vec<char>, pat: &Vec<char>) -> (r: (Vec<char>, Vec<char>))
    requires
        pat@.len() > 0,
    ensures
        (r.0@, r.1@) == first_two_pieces(s@, pat@),
{
    match find_chars(s, pat, 0) {
        None => {
            let a = slice_chars(s, 0, s.len());
            assert(a@ =~= s@);
            (a, Vec::new())
        },
        Some(f) => {
            proof {
                lemma_find_from(s@, pat@, 0);
            }
            let a = slice_chars(s, 0, f);
            let n = s.len();
            assert(f + pat@.len() <= n);
            let rest = slice_chars(s, f + pat.len(), n);
            assert(rest@ =~= s@.skip(f + pat@.len()));
            assert(a@ =~= s@.take(f as int));
            match find_chars(&rest, pat, 0) {
                None => (a, rest),
                Some(g) => {
                    proof {
                        lemma_find_from(rest@, pat@, 0);
                    }
                    let b = slice_chars(&rest, 0, g);
                    assert(b@ =~= rest@.take(g as int));
                    (a, b)
                },
            }
        },
    }
}

/// Whether `pre` is a prefix of `s`.
pub fn starts_with_chars(s: &Vec<char>, pre: &Vec<char>) -> (b: bool)
    ensures
        b == (pre@.len() <= s@.len() && s@.take(pre@.len() as int) == pre@),
{
    let b = matches_at(s, 0, pre);
    proof {
        if pre@.len() <= s@.len() {
            assert(s@.subrange(0, pre@.len() as int) =~= s@.take(pre@.len() as int));
        }
    }
    b
}

/// Whether `a` and `b` hold the same characters.
pub fn same_chars(a: &Vec<char>, b: &Vec<char>) -> (r: bool)
    ensures
        r == (a@ == b@),
{
    if a.len() != b.len() {
        return false;
    }
    let r = matches_at(a, 0, b);
    proof {
        assert(a@.subrange(0, b@.len() as int) =~= a@);
    }
    r
}

/// Every ASCII digit of `v` in its full-width form.
pub fn full_width_chars(v: &Vec<char>) -> (r: Vec<char>)
    ensures
        r@ == full_width(v@),
{
    let mut r: Vec<char> = Vec::new();
    let mut i: usize = 0;
    while i < v.len()
        invariant
            0 <= i <= v@.len(),
            r@ == full_width(v@.take(i as int)),
        decreases v@.len() - i,
    {
        r.push(full_width_of(v[i]));
        assert(full_width(v@.take(i as int + 1)) =~= full_width(v@.take(i as int)).push(full_width_char(v@[i as int])));
        i = i + 1;
    }
    assert(v@.take(i as int) =~= v@);
    r
}

/// `text` with every ASCII digit in its full-width form (`1` becomes `１`).
pub fn full_width_digits(text: &String) -> (r: String)
    ensures
        r@ == full_width(text@),
{
    let v = chars_of(text.as_str());
    let w = full_width_chars(&v);
    string_of(&w)
}

/// The slot `{{{name}}}` of a page template.
pub open spec fn slot(name: Seq<char>) -> Seq<char> {
    seq!['{', '{', '{'] + name + seq!['}', '}', '}']
}

/// `text` with every slot `{{{name}}}` filled with `value`.
pub open spec fn fill(text: Seq<char>, name: Seq<char>, value: Seq<char>) -> Seq<char> {
    replace_all(text, slot(name), value)
}

/// `text` with every slot `{{{name}}}` filled with `value`.
pub fn fill_slot(text: &Vec<char>, name: &str, value: &Vec<char>) -> (r: Vec<char>)
    ensures
        r@ == fill(text@, name@, value@),
{
    let mut pat: Vec<char> = vec!['{', '{', '{'];
    let n = chars_of(name);
    extend_chars(&mut pat, &n);
    let close: Vec<char> = vec!['}', '}', '}'];
    extend_chars(&mut pat, &close);
    assert(pat@ =~= slot(name@));
    replace_chars(text, &pat, value)
}

} // verus!
