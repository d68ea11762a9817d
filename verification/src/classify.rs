//! Kinds of characters.
use vstd::prelude::*;

verus! {

/// Whether the code point `c` is in one of the CJK unified ideograph
/// blocks (the basic block, extensions A to F) or the compatibility block.
pub open spec fn spec_is_hanzi(c: u32) -> bool {
    (0x4E00 <= c && c <= 0x9FFF) || (0x3400 <= c && c <= 0x4DBF) || (0x20000 <= c && c
        <= 0x2A6DF) || (0x2A700 <= c && c <= 0x2B73F) || (0x2B740 <= c && c <= 0x2B81F) || (
    0x2B820 <= c && c <= 0x2CEAF) || (0x2CEB0 <= c && c <= 0x2EBEF) || (0xF900 <= c && c
        <= 0xFAFF)
}

/// Whether the code point `c` is a CJK ideograph.
pub fn is_hanzi(c: u32) -> (b: bool)
    ensures
        b == spec_is_hanzi(c),
{
    (c >= 0x4E00 && c <= 0x9FFF) || (c >= 0x3400 && c <= 0x4DBF) || (c >= 0x20000 && c
        <= 0x2A6DF) || (c >= 0x2A700 && c <= 0x2B73F) || (c >= 0x2B740 && c <= 0x2B81F) || (c
        >= 0x2B820 && c <= 0x2CEAF) || (c >= 0x2CEB0 && c <= 0x2EBEF) || (c >= 0xF900 && c
        <= 0xFAFF)
}

/// Whether `c` is an ideographic description character (U+2FF0 to U+2FFB),
/// which tells how components are laid out rather than being one.
pub open spec fn spec_is_descriptor(c: char) -> bool {
    0x2FF0 <= (c as u32) && (c as u32) <= 0x2FFB
}

/// Whether `c` is an ideographic description character.
pub fn is_descriptor(c: char) -> (b: bool)
    ensures
        b == spec_is_descriptor(c),
{
    c as u32 >= 0x2FF0 && c as u32 <= 0x2FFB
}

/// Whether `c` is at most U+00FF (ASCII or Latin-1).
pub open spec fn spec_is_ascii(c: char) -> bool {
    (c as u32) <= 0xFF
}

/// Whether `c` is at most U+00FF.
pub fn is_ascii(c: char) -> (b: bool)
    ensures
        b == spec_is_ascii(c),
{
    c as u32 <= 0xFF
}

/// The component forms never offered for picking: the circled numbers,
/// which stand for stroke groups, and simplified-Chinese component forms.
pub open spec fn non_radical_components() -> Seq<char> {
    seq!['①', '②', '③', '④', '⑤', '⑥', '⑦', '⑧', '⑨', '⑩', '⑪', '⑫', '⑬', '⑭', '⑮', '⑯', '⑰', '⑱', '⑲', '⑳', '纟', '门', '饣', '马', '贝', '车', '钅', '鸟', '页', '镸', '讠']
}

/// Whether `c` is one of the component forms never offered for picking.
pub fn is_non_radical_search_component(c: &char) -> (b: bool)
    ensures
        b == non_radical_components().contains(*c),
{
    let list: Vec<char> = vec!['①', '②', '③', '④', '⑤', '⑥', '⑦', '⑧', '⑨', '⑩', '⑪', '⑫', '⑬', '⑭', '⑮', '⑯', '⑰', '⑱', '⑲', '⑳', '纟', '门', '饣', '马', '贝', '车', '钅', '鸟', '页', '镸', '讠'];
    assert(list@ =~= non_radical_components());
    crate::text::has_char(&list, *c)
}

} // verus!
