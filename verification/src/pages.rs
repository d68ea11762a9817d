//! The pages: the component picker, the empty search page, and search results.
use vstd::prelude::*;
use crate::server::ServerData;
use crate::strokes::{picker_counted, spec_strokes};
use crate::text::{
    chars_of, decimal, decimal_chars, extend_chars, fill, fill_slot, full_width, full_width_chars,
    string_of,
};

verus! {

/// The stroke count of `c` in `d`.
pub open spec fn strokes_of(d: &ServerData, c: char) -> nat {
    spec_strokes(d, c)->0
}

/// The heading of a group of characters with `n` strokes: a new line,
/// then `n` in full-width digits and a full-width colon.
pub open spec fn stroke_heading(n: nat) -> Seq<char> {
    full_width(seq!['\n'] + decimal(n) + seq!['：'])
}

/// The heading of a group of characters with `n` strokes.
pub fn stroke_heading_chars(n: u64) -> (r: Vec<char>)
    ensures
        r@ == stroke_heading(n as nat),
{
    let mut v: Vec<char> = vec!['\n'];
    let digits = decimal_chars(n);
    extend_chars(&mut v, &digits);
    v.push('：');
    assert(v@ =~= seq!['\n'] + decimal(n as nat) + seq!['：']);
    full_width_chars(&v)
}

/// A component offered for picking.
pub open spec fn radical_span(c: char) -> Seq<char> {
    "<span class=radical>"@ + seq![c] + "</span>"@
}

/// The picker for `comps` (grouped under a heading each time the stroke
/// count changes, groups separated by line breaks), with the stroke count
/// it ends on.
pub open spec fn radical_render(d: &ServerData, comps: Seq<char>) -> (Seq<char>, nat)
    decreases comps.len(),
{
    if comps.len() == 0 {
        (Seq::empty(), 0)
    } else {
        let (h, last) = radical_render(d, comps.drop_last());
        let c = comps.last();
        let n = strokes_of(d, c);
        if n != last {
            let h2 = if last != 0 {
                h + "<br>\n"@
            } else {
                h
            };
            (h2 + stroke_heading(n) + radical_span(c), n)
        } else {
            (h + radical_span(c), last)
        }
    }
}

/// The component picker of `d`.
pub open spec fn radical_html(d: &ServerData) -> Seq<char> {
    radical_render(d, d.common_comps@).0
}

/// The page with nothing searched: every slot empty, the default filter
/// level selected, and the component picker.
pub open spec fn default_page(d: &ServerData) -> Seq<char> {
    let t0 = d.template@;
    let t1 = fill(t0, "input"@, ""@);
    let t2 = fill(t1, "reverse_checked"@, ""@);
    let t3 = fill(t2, "simple_checked"@, ""@);
    let t4 = fill(t3, "selected_joyoplus"@, ""@);
    let t5 = fill(t4, "selected_media"@, "selected"@);
    let t6 = fill(t5, "selected_kanjidicplus"@, ""@);
    let t7 = fill(t6, "selected_all"@, ""@);
    let t8 = fill(t7, "output"@, ""@);
    fill(t8, "radical_search"@, radical_html(d))
}

impl ServerData {
    /// The component picker: the common components in order, a heading
    /// with the stroke count before each run of equal counts.
    pub fn radical_text(&self) -> (html: String)
        requires
            picker_counted(self),
        ensures
            html@ == radical_html(self),
    {
        let mut html: Vec<char> = Vec::new();
        let mut last_strokes: u64 = 0;
        let br = chars_of("<br>\n");
        let open = chars_of("<span class=radical>");
        let close = chars_of("</span>");
        let mut i: usize = 0;
        proof {
            assert(self.common_comps@.take(0) =~= Seq::<char>::empty());
        }
        while i < self.common_comps.len()
            invariant
                0 <= i <= self.common_comps@.len(),
                picker_counted(self),
                br@ == "<br>\n"@,
                open@ == "<span class=radical>"@,
                close@ == "</span>"@,
                radical_render(self, self.common_comps@.take(i as int)) == (html@, last_strokes as nat),
            decreases self.common_comps@.len() - i,
        {
            let c = self.common_comps[i];
            let strokes = self.get_strokes(c);
            proof {
                assert(self.common_comps@.take(i as int + 1).drop_last() =~= self.common_comps@.take(i as int));
            }
            if strokes != last_strokes {
                if last_strokes != 0 {
                    extend_chars(&mut html, &br);
                }
                let heading = stroke_heading_chars(strokes);
                extend_chars(&mut html, &heading);
                last_strokes = strokes;
            }
            extend_chars(&mut html, &open);
            html.push(c);
            extend_chars(&mut html, &close);
            proof {
                assert(html@ =~= radical_render(self, self.common_comps@.take(i as int + 1)).0);
            }
            i = i + 1;
        }
        proof {
            assert(self.common_comps@.take(i as int) =~= self.common_comps@);
        }
        string_of(&html)
    }

    /// The page with nothing searched yet.
    pub fn default(&self) -> (page: String)
        requires
            picker_counted(self),
        ensures
            page@ == default_page(self),
    {
        let empty: Vec<char> = Vec::new();
        let selected = chars_of("selected");
        assert(empty@ =~= ""@) by {
            reveal_strlit("");
        }
        let mut output = chars_of(self.template.as_str());
        output = fill_slot(&output, "input", &empty);
        output = fill_slot(&output, "reverse_checked", &empty);
        output = fill_slot(&output, "simple_checked", &empty);
        output = fill_slot(&output, "selected_joyoplus", &empty);
        output = fill_slot(&output, "selected_media", &selected);
        output = fill_slot(&output, "selected_kanjidicplus", &empty);
        output = fill_slot(&output, "selected_all", &empty);
        output = fill_slot(&output, "output", &empty);
        let radicals = self.radical_text();
        let radical_chars = chars_of(radicals.as_str());
        output = fill_slot(&output, "radical_search", &radical_chars);
        string_of(&output)
    }
}

} // verus!
