//! Names under which uploads and projects are stored.
use vstd::prelude::*;
use crate::text::concat_str;

verus! {

/// The Unicode `White_Space` characters (the characters `char::is_whitespace`
/// accepts): tab to carriage return, space, next line, no-break space, ogham
/// space mark, the spaces from en quad to hair space, line and paragraph
/// separators, narrow no-break space, medium mathematical space and
/// ideographic space.
pub open spec fn is_white_space(c: char) -> bool {
    let v = c as u32;
    ||| 0x09 <= v <= 0x0d
    ||| v == 0x20
    ||| v == 0x85
    ||| v == 0xa0
    ||| v == 0x1680
    ||| 0x2000 <= v <= 0x200a
    ||| v == 0x2028
    ||| v == 0x2029
    ||| v == 0x202f
    ||| v == 0x205f
    ||| v == 0x3000
}

/// Every character of `s` is white space (so `s` trims to nothing).
pub open spec fn is_blank(s: Seq<char>) -> bool {
    forall|i: int| 0 <= i < s.len() ==> is_white_space(#[trigger] s[i])
}

/// The name a project gets from the name fields of its upload, in order: the
/// last one that is not blank, or "Untitled" when there is none.
pub open spec fn chosen_name(fields: Seq<String>) -> Seq<char>
    decreases fields.len(),
{
    if fields.len() == 0 {
        "Untitled"@
    } else if !is_blank(fields.last()@) {
        fields.last()@
    } else {
        chosen_name(fields.drop_last())
    }
}

fn is_white_space_char(c: char) -> (r: bool)
    ensures
        r == is_white_space(c),
{
    let v = c as u32;
    (0x09 <= v && v <= 0x0d) || v == 0x20 || v == 0x85 || v == 0xa0 || v == 0x1680 || (0x2000 <= v && v <= 0x200a)
        || v == 0x2028 || v == 0x2029 || v == 0x202f || v == 0x205f || v == 0x3000
}

/// Whether `s` consists of white space only.
pub fn is_blank_str(s: &str) -> (r: bool)
    ensures
        r == is_blank(s@),
{
    let n = s.unicode_len();
    let mut i: usize = 0;
    while i < n
        invariant
            n == s@.len(),
            i <= n,
            forall|k: int| 0 <= k < i ==> is_white_space(#[trigger] s@[k]),
        decreases n - i,
    {
        if !is_white_space_char(s.get_char(i)) {
            return false;
        }
        i = i + 1;
    }
    true
}

/// The name of a new project, given the text of each name field of its
/// upload in order: the last field that is not blank, else "Untitled".
pub fn project_name(fields: &Vec<String>) -> (r: String)
    ensures
        r@ == chosen_name(fields@),
{
    let mut chosen: Option<usize> = None;
    let mut i: usize = 0;
    while i < fields.len()
        invariant
            i <= fields@.len(),
            chosen matches Some(k) ==> k < i,
            chosen_name(fields@.take(i as int)) == match chosen {
                Some(k) => fields@[k as int]@,
                None => "Untitled"@,
            },
        decreases fields@.len() - i,
    {
        proof {
            assert(fields@.take(i as int + 1).drop_last() =~= fields@.take(i as int));
            assert(fields@.take(i as int + 1).last() == fields@[i as int]);
        }
        if !is_blank_str(fields[i].as_str()) {
            chosen = Some(i);
        }
        i = i + 1;
    }
    proof {
        assert(fields@.take(fields@.len() as int) =~= fields@);
    }
    match chosen {
        Some(k) => String::from_str(fields[k].as_str()),
        None => String::from_str("Untitled"),
    }
}

/// File name `stem.ext` for a stored upload, with `default_ext` when the
/// uploaded file name had no extension.
pub fn stored_file_name(stem: &str, ext: Option<&str>, default_ext: &str) -> (r: String)
    ensures
        r@ == stem@ + "."@ + match ext {
            Some(e) => e@,
            None => default_ext@,
        },
{
    let dotted = concat_str(stem, ".");
    let e = match ext {
        Some(e) => e,
        None => default_ext,
    };
    concat_str(dotted.as_str(), e)
}

} // verus!
