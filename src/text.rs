//! Upper-casing of names.
use vstd::prelude::*;

verus! {

/// ASCII upper case of one character; every other character stays.
pub open spec fn ascii_upper(c: char) -> char {
    if 'a' <= c && c <= 'z' {
        (c as int - 32) as char
    } else {
        c
    }
}

pub open spec fn upper_all(s: Seq<char>) -> Seq<char> {
    s.map_values(|c: char| ascii_upper(c))
}

/// `s` with its first character in ASCII upper case.
pub open spec fn capitalized(s: Seq<char>) -> Seq<char>
    recommends
        s.len() > 0,
{
    seq![ascii_upper(s[0])] + s.subrange(1, s.len() as int)
}

/// Relies on std's `str::to_ascii_uppercase`: each ASCII lower-case letter
/// becomes its upper-case letter, every other character stays as it is.
#[verifier::external_body]
fn to_ascii_upper(s: &str) -> (r: String)
    ensures
        r@ == upper_all(s@),
{
    s.to_ascii_uppercase()
}

/// The name in ASCII upper case, as shouted back by the name service.
pub fn shout(name: &str) -> (r: String)
    ensures
        r@ == upper_all(name@),
{
    to_ascii_upper(name)
}

/// The name with its first character in ASCII upper case.
pub fn capitalize(name: &str) -> (r: String)
    requires
        name@.len() > 0,
    ensures
        r@ == capitalized(name@),
{
    let len = name.unicode_len();
    let first = name.substring_char(0, 1);
    let rest = name.substring_char(1, len);
    let head = to_ascii_upper(first);
    let r = head.concat(rest);
    assert(upper_all(first@) =~= seq![ascii_upper(name@[0])]);
    r
}

/// Capitalizes every name of the list; no name may be empty.
pub fn uppercase_conversion(name_list: &Vec<&str>) -> (r: Vec<String>)
    requires
        forall|i: int| 0 <= i < name_list@.len() ==> (#[trigger] name_list@[i])@.len() > 0,
    ensures
        r@.len() == name_list@.len(),
        forall|i: int| 0 <= i < r@.len() ==> (#[trigger] r@[i])@ == capitalized(name_list@[i]@),
{
    let mut out: Vec<String> = Vec::new();
    let mut i: usize = 0;
    while i < name_list.len()
        invariant
            i <= name_list@.len(),
            forall|j: int| 0 <= j < name_list@.len() ==> (#[trigger] name_list@[j])@.len() > 0,
            out@.len() == i,
            forall|j: int| 0 <= j < i ==> (#[trigger] out@[j])@ == capitalized(name_list@[j]@),
        decreases name_list@.len() - i,
    {
        let name: &str = name_list[i];
        out.push(capitalize(name));
        i = i + 1;
    }
    out
}

} // verus!
