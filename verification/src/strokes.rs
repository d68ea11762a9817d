//! Stroke counts: taken from the dictionary where it has one, else added up
//! from the components, else from a fixed table of component forms.
use vstd::prelude::*;
use std::collections::HashMap;
use crate::server::ServerData;

verus! {

broadcast use vstd::std_specs::hash::group_hash_axioms;

/// The stroke counts of component forms that the dictionary lacks
/// (0 for a character that is nowhere to be found).
pub open spec fn table_strokes(c: char) -> nat {
    if c == '①' { 1 }
    else if c == '②' { 2 }
    else if c == '③' { 3 }
    else if c == '④' { 4 }
    else if c == '⑤' { 5 }
    else if c == '⑥' { 6 }
    else if c == '⑦' { 7 }
    else if c == '⑧' { 8 }
    else if c == '⑨' { 9 }
    else if c == '⑩' { 10 }
    else if c == '⑪' { 11 }
    else if c == '⑫' { 12 }
    else if c == '⑬' { 13 }
    else if c == '⑭' { 14 }
    else if c == '⑮' { 15 }
    else if c == '⑯' { 16 }
    else if c == '⑰' { 17 }
    else if c == '⑱' { 18 }
    else if c == '⑲' { 19 }
    else if c == '⑳' { 20 }
    else if c == '艹' { 4 }
    else if c == '⺆' { 2 }
    else if c == '既' { 11 }
    else if c == '者' { 9 }
    else if c == '𭕄' { 3 }
    else if c == '卑' { 8 }
    else if c == 'サ' { 3 }
    else if c == 'コ' { 2 }
    else if c == '㇇' { 1 }
    else if c == '⺄' { 1 }
    else if c == 'よ' { 2 }
    else if c == '⺌' { 3 }
    else if c == '⺊' { 2 }
    else if c == 'い' { 2 }
    else if c == 'ス' { 2 }
    else if c == 'り' { 2 }
    else if c == 'ユ' { 2 }
    else if c == '㇌' { 1 }
    else if c == '㇉' { 1 }
    else if c == '㇀' { 1 }
    else if c == '㇓' { 1 }
    else if c == '𛂦' { 2 }
    else if c == '𮍌' { 5 }
    else if c == '𭣔' { 5 }
    else if c == '𮠕' { 8 }
    else if c == '𬺻' { 5 }
    else if c == '⻌' { 3 }
    else if c == '辶' { 4 }
    else { 0 }
}

/// The stroke count of `c`, following components at most `fuel` levels
/// deep (`None` when that is not deep enough).
pub open spec fn strokes_within(
    dict: Map<u32, u64>,
    parts: Map<u32, Seq<char>>,
    c: char,
    fuel: nat,
) -> Option<nat>
    decreases fuel, 0nat,
{
    if c == '辶' {
        Some(4)
    } else if dict.contains_key(c as u32) {
        Some(dict[c as u32] as nat)
    } else if parts.contains_key(c as u32) {
        if fuel == 0 {
            None
        } else {
            sum_strokes_within(dict, parts, parts[c as u32], (fuel - 1) as nat)
        }
    } else {
        Some(table_strokes(c))
    }
}

/// The stroke counts of `list` added up, each found within `fuel` levels.
pub open spec fn sum_strokes_within(
    dict: Map<u32, u64>,
    parts: Map<u32, Seq<char>>,
    list: Seq<char>,
    fuel: nat,
) -> Option<nat>
    decreases fuel, list.len(),
{
    if list.len() == 0 {
        Some(0)
    } else {
        match (
            sum_strokes_within(dict, parts, list.drop_last(), fuel),
            strokes_within(dict, parts, list.last(), fuel),
        ) {
            (Some(a), Some(b)) => Some(a + b),
            _ => None,
        }
    }
}

/// Whether `c` has no stroke count anywhere: not in the dictionary, no
/// component list, and not in the table of component forms (its count is
/// then taken as 0).
pub open spec fn count_unknown(dict: Map<u32, u64>, parts: Map<u32, Seq<char>>, c: char) -> bool {
    c != '辶' && !dict.contains_key(c as u32) && !parts.contains_key(c as u32) && table_strokes(c) == 0
}

/// The characters with no stroke count met while counting the strokes of
/// `c`, following components at most `fuel` levels deep, in the order they
/// are met.
pub open spec fn unknown_within(
    dict: Map<u32, u64>,
    parts: Map<u32, Seq<char>>,
    c: char,
    fuel: nat,
) -> Seq<char>
    decreases fuel, 0nat,
{
    if c == '辶' || dict.contains_key(c as u32) {
        Seq::empty()
    } else if parts.contains_key(c as u32) {
        if fuel == 0 {
            Seq::empty()
        } else {
            unknown_in_list(dict, parts, parts[c as u32], (fuel - 1) as nat)
        }
    } else if table_strokes(c) == 0 {
        seq![c]
    } else {
        Seq::empty()
    }
}

/// The characters with no stroke count met while counting the strokes of
/// each of `list` in turn, each within `fuel` levels.
pub open spec fn unknown_in_list(
    dict: Map<u32, u64>,
    parts: Map<u32, Seq<char>>,
    list: Seq<char>,
    fuel: nat,
) -> Seq<char>
    decreases fuel, list.len(),
{
    if list.len() == 0 {
        Seq::empty()
    } else {
        unknown_in_list(dict, parts, list.drop_last(), fuel) + unknown_within(dict, parts, list.last(), fuel)
    }
}

/// The stroke-count dictionary of `d`.
pub open spec fn stroke_dict(d: &ServerData) -> Map<u32, u64> {
    d.char_to_strokes@
}

/// The component lists of `d`.
pub open spec fn stroke_parts(d: &ServerData) -> Map<u32, Seq<char>> {
    d.char_to_first_comp@.map_values(|v: Vec<char>| v@)
}

/// How deep components are followed: as many levels as there are
/// characters with component lists, which a decomposition without cycles
/// never exceeds.
pub open spec fn stroke_depth(d: &ServerData) -> nat {
    d.char_to_first_comp@.dom().len()
}

/// The stroke count of `c` in `d`, when it is defined.
pub open spec fn spec_strokes(d: &ServerData, c: char) -> Option<nat> {
    strokes_within(stroke_dict(d), stroke_parts(d), c, stroke_depth(d))
}

/// Every character has a stroke count within `depth` levels of
/// components, and it fits in a `u64`.
pub open spec fn strokes_defined_in(dict: Map<u32, u64>, parts: Map<u32, Seq<char>>, depth: nat) -> bool {
    forall|c: char| #[trigger] stroke_count_ok(dict, parts, c, depth)
}

/// `c` has a stroke count within `depth` levels, and it fits in a `u64`.
pub open spec fn stroke_count_ok(dict: Map<u32, u64>, parts: Map<u32, Seq<char>>, c: char, depth: nat) -> bool {
    strokes_within(dict, parts, c, depth) matches Some(n) && n <= u64::MAX
}

/// `c` has a stroke count in `d`, and it fits in a `u64`: following its
/// components never goes round in a cycle, and no sum overflows.
pub open spec fn count_ok(d: &ServerData, c: char) -> bool {
    stroke_count_ok(stroke_dict(d), stroke_parts(d), c, stroke_depth(d))
}

/// Every character whose code point is in `set` has a stroke count in `d`.
pub open spec fn counts_ok(d: &ServerData, set: Set<u32>) -> bool {
    forall|u: u32| #[trigger] set.contains(u) ==> count_ok(d, u as char)
}

/// Every component offered for picking has a stroke count in `d`.
pub open spec fn picker_counted(d: &ServerData) -> bool {
    forall|i: int| 0 <= i < d.common_comps@.len() ==> count_ok(d, #[trigger] d.common_comps@[i])
}

/// Every character of `d` has a stroke count, and it fits in a `u64`.
pub open spec fn strokes_defined(d: &ServerData) -> bool {
    strokes_defined_in(stroke_dict(d), stroke_parts(d), stroke_depth(d))
}

/// The fixed table of component forms.
pub fn table_stroke_count(c: char) -> (n: u64)
    ensures
        n == table_strokes(c),
{
    match c {
        '①' => 1,
        '②' => 2,
        '③' => 3,
        '④' => 4,
        '⑤' => 5,
        '⑥' => 6,
        '⑦' => 7,
        '⑧' => 8,
        '⑨' => 9,
        '⑩' => 10,
        '⑪' => 11,
        '⑫' => 12,
        '⑬' => 13,
        '⑭' => 14,
        '⑮' => 15,
        '⑯' => 16,
        '⑰' => 17,
        '⑱' => 18,
        '⑲' => 19,
        '⑳' => 20,
        '艹' => 4,
        '⺆' => 2,
        '既' => 11,
        '者' => 9,
        '𭕄' => 3,
        '卑' => 8,
        'サ' => 3,
        'コ' => 2,
        '㇇' => 1,
        '⺄' => 1,
        'よ' => 2,
        '⺌' => 3,
        '⺊' => 2,
        'い' => 2,
        'ス' => 2,
        'り' => 2,
        'ユ' => 2,
        '㇌' => 1,
        '㇉' => 1,
        '㇀' => 1,
        '㇓' => 1,
        '𛂦' => 2,
        '𮍌' => 5,
        '𭣔' => 5,
        '𮠕' => 8,
        '𬺻' => 5,
        '⻌' => 3,
        '辶' => 4,
        _ => 0,
    }
}

impl ServerData {
    /// The stroke count of `c` within `fuel` levels of components, when it
    /// is found there and fits in a `u64`.
    pub fn strokes_checked(&self, c: char, fuel: usize) -> (r: Option<u64>)
        ensures
            match strokes_within(stroke_dict(self), stroke_parts(self), c, fuel as nat) {
                Some(n) => if n <= u64::MAX { r == Some(n as u64) } else { r is None },
                None => r is None,
            },
        decreases fuel, 1nat,
    {
        if c == '辶' {
            return Some(4);
        }
        match self.char_to_strokes.get(&(c as u32)) {
            Some(n) => {
                return Some(*n);
            },
            None => {},
        }
        match self.char_to_first_comp.get(&(c as u32)) {
            Some(list) => {
                if fuel == 0 {
                    None
                } else {
                    self.sum_checked(list, fuel - 1)
                }
            },
            None => Some(table_stroke_count(c)),
        }
    }

    /// The stroke counts of `list` added up, each within `fuel` levels,
    /// when all are found and the total fits in a `u64`.
    pub fn sum_checked(&self, list: &Vec<char>, fuel: usize) -> (r: Option<u64>)
        ensures
            match sum_strokes_within(stroke_dict(self), stroke_parts(self), list@, fuel as nat) {
                Some(n) => if n <= u64::MAX { r == Some(n as u64) } else { r is None },
                None => r is None,
            },
        decreases fuel, 2nat,
    {
        let ghost dict = stroke_dict(self);
        let ghost parts = stroke_parts(self);
        let mut total: u64 = 0;
        let mut i: usize = 0;
        while i < list.len()
            invariant
                0 <= i <= list@.len(),
                dict == stroke_dict(self),
                parts == stroke_parts(self),
                sum_strokes_within(dict, parts, list@.take(i as int), fuel as nat) == Some(total as nat),
            decreases list@.len() - i,
        {
            let c = list[i];
            let ghost prefix = list@.take(i as int + 1);
            proof {
                assert(prefix.drop_last() =~= list@.take(i as int));
                assert(prefix.last() == c);
            }
            match self.strokes_checked(c, fuel) {
                Some(n) => {
                    if total > u64::MAX - n {
                        proof {
                            lemma_sum_prefix(dict, parts, list@, i as int + 1, fuel as nat);
                        }
                        return None;
                    }
                    total = total + n;
                },
                None => {
                    proof {
                        lemma_sum_prefix(dict, parts, list@, i as int + 1, fuel as nat);
                    }
                    return None;
                },
            }
            i = i + 1;
        }
        proof {
            assert(list@.take(i as int) =~= list@);
        }
        Some(total)
    }

    /// The number of strokes of `c`: from the dictionary, else the sum over
    /// its components, else from the table of component forms.
    pub fn get_strokes(&self, c: char) -> (n: u64)
        requires
            count_ok(self, c),
        ensures
            spec_strokes(self, c) == Some(n as nat),
    {
        proof {
            assert(stroke_count_ok(stroke_dict(self), stroke_parts(self), c, stroke_depth(self)));
        }
        let depth = self.char_to_first_comp.len();
        match self.strokes_checked(c, depth) {
            Some(n) => n,
            None => 0,
        }
    }
}

impl ServerData {
    /// Whether `c` has no stroke count anywhere, so that it counts as 0.
    pub fn has_no_stroke_count(&self, c: char) -> (b: bool)
        ensures
            b == count_unknown(stroke_dict(self), stroke_parts(self), c),
    {
        c != '辶' && !self.char_to_strokes.contains_key(&(c as u32))
            && !self.char_to_first_comp.contains_key(&(c as u32)) && table_stroke_count(c) == 0
    }

    /// Appends the characters with no stroke count met while counting the
    /// strokes of `c` within `fuel` levels.
    fn unknown_into(&self, c: char, fuel: usize, out: &mut Vec<char>)
        ensures
            final(out)@ == old(out)@ + unknown_within(stroke_dict(self), stroke_parts(self), c, fuel as nat),
        decreases fuel, 1nat,
    {
        if c == '辶' || self.char_to_strokes.contains_key(&(c as u32)) {
            assert(out@ =~= out@ + Seq::<char>::empty());
            return;
        }
        match self.char_to_first_comp.get(&(c as u32)) {
            Some(list) => {
                if fuel == 0 {
                    assert(out@ =~= out@ + Seq::<char>::empty());
                } else {
                    self.unknown_list_into(list, fuel - 1, out);
                }
            },
            None => {
                if table_stroke_count(c) == 0 {
                    out.push(c);
                } else {
                    assert(out@ =~= out@ + Seq::<char>::empty());
                }
            },
        }
    }

    /// Appends the characters with no stroke count met while counting the
    /// strokes of each of `list` within `fuel` levels.
    fn unknown_list_into(&self, list: &Vec<char>, fuel: usize, out: &mut Vec<char>)
        ensures
            final(out)@ == old(out)@ + unknown_in_list(stroke_dict(self), stroke_parts(self), list@, fuel as nat),
        decreases fuel, 2nat,
    {
        let ghost dict = stroke_dict(self);
        let ghost parts = stroke_parts(self);
        let ghost start = out@;
        let mut i: usize = 0;
        proof {
            assert(list@.take(0) =~= Seq::<char>::empty());
            assert(out@ =~= start + Seq::<char>::empty());
        }
        while i < list.len()
            invariant
                0 <= i <= list@.len(),
                dict == stroke_dict(self),
                parts == stroke_parts(self),
                out@ == start + unknown_in_list(dict, parts, list@.take(i as int), fuel as nat),
            decreases list@.len() - i,
        {
            let c = list[i];
            proof {
                assert(list@.take(i as int + 1).drop_last() =~= list@.take(i as int));
                assert(list@.take(i as int + 1).last() == c);
            }
            self.unknown_into(c, fuel, out);
            proof {
                assert(out@ =~= start + unknown_in_list(dict, parts, list@.take(i as int + 1), fuel as nat));
            }
            i = i + 1;
        }
        proof {
            assert(list@.take(i as int) =~= list@);
        }
    }

    /// The characters with no stroke count met while counting the strokes
    /// of each of `list` in turn, in the order they are met; each counts
    /// as 0.
    pub fn missing_stroke_counts(&self, list: &Vec<char>) -> (v: Vec<char>)
        ensures
            v@ == unknown_in_list(stroke_dict(self), stroke_parts(self), list@, stroke_depth(self)),
    {
        let mut v: Vec<char> = Vec::new();
        let depth = self.char_to_first_comp.len();
        self.unknown_list_into(list, depth, &mut v);
        assert(v@ =~= unknown_in_list(stroke_dict(self), stroke_parts(self), list@, stroke_depth(self)));
        v
    }
}

impl ServerData {
    /// Whether every character has a stroke count within the depth that
    /// fits in a `u64`, which searching and showing the data need; only
    /// characters with component lists need looking at.
    pub fn check_strokes(&self) -> (b: bool)
        requires
            self.well_shaped(),
        ensures
            b == self.wf(),
            b == strokes_defined(self),
    {
        let ghost dict = stroke_dict(self);
        let ghost parts = stroke_parts(self);
        let ghost depth = stroke_depth(self);
        let keys = crate::charset::map_keys(&self.char_to_first_comp);
        let n = self.char_to_first_comp.len();
        let mut i: usize = 0;
        while i < keys.len()
            invariant
                0 <= i <= keys@.len(),
                keys@.to_set() == self.char_to_first_comp@.dom(),
                n as nat == depth,
                dict == stroke_dict(self),
                parts == stroke_parts(self),
                depth == stroke_depth(self),
                forall|k: u32| #[trigger] self.char_to_first_comp@.contains_key(k) ==> crate::text::is_char_code(k),
                forall|j: int| 0 <= j < i ==> stroke_count_ok(dict, parts, (#[trigger] keys@[j]) as char, depth),
            decreases keys@.len() - i,
        {
            let k = keys[i];
            assert(keys@.to_set().contains(k));
            match crate::text::char_from_u32(k) {
                Some(c) => {
                    proof {
                        crate::text::lemma_char_of_code(c, k);
                    }
                    match self.strokes_checked(c, n) {
                        Some(_) => {},
                        None => {
                            assert(!stroke_count_ok(dict, parts, c, depth));
                            return false;
                        },
                    }
                },
                None => {
                    return false;
                },
            }
            i = i + 1;
        }
        proof {
            assert forall|c: char| #[trigger] stroke_count_ok(dict, parts, c, depth) by {
                if c != '辶' && !dict.contains_key(c as u32) && parts.contains_key(c as u32) {
                    assert(keys@.to_set().contains(c as u32));
                    let j = choose|j: int| 0 <= j < keys@.len() && keys@[j] == c as u32;
                    crate::text::lemma_char_of_code(c, c as u32);
                    assert(stroke_count_ok(dict, parts, keys@[j] as char, depth));
                }
            }
        }
        true
    }
}

/// Once the sum over a prefix of `list` is undefined, so is the sum over
/// all of it; while defined, the sum over all of it is no smaller.
pub proof fn lemma_sum_prefix(
    dict: Map<u32, u64>,
    parts: Map<u32, Seq<char>>,
    list: Seq<char>,
    k: int,
    fuel: nat,
)
    requires
        0 <= k <= list.len(),
    ensures
        match sum_strokes_within(dict, parts, list.take(k), fuel) {
            Some(a) => sum_strokes_within(dict, parts, list, fuel) matches Some(b) ==> a <= b,
            None => sum_strokes_within(dict, parts, list, fuel) is None,
        },
    decreases list.len() - k,
{
    if k == list.len() {
        assert(list.take(k) =~= list);
    } else {
        assert(list.take(k + 1).drop_last() =~= list.take(k));
        lemma_sum_prefix(dict, parts, list, k + 1, fuel);
    }
}

} // verus!
