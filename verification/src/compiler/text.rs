use vstd::prelude::*;

verus! {

/// Whether `c` is alphanumeric, in the sense of Unicode.
pub uninterp spec fn is_alphanumeric(c: char) -> bool;

/// The upper-case form of `c`, in the sense of Unicode: one character or
/// several.
pub uninterp spec fn uppercase_of(c: char) -> Seq<char>;

/// The lower-case form of `text`, in the sense of Unicode.
pub uninterp spec fn lowercase_of(text: Seq<char>) -> Seq<char>;

/// `char::is_alphanumeric` of std: tells whether the character is in one of
/// the Unicode categories of letters and numbers.
#[verifier::external_body]
pub(crate) fn char_is_alphanumeric(c: char) -> (yes: bool)
    ensures
        yes == is_alphanumeric(c),
{
    c.is_alphanumeric()
}

/// `char::to_uppercase` of std: the characters of the upper-case form of
/// `c`, in order.
#[verifier::external_body]
pub(crate) fn char_to_uppercase(c: char) -> (upper: Vec<char>)
    ensures
        upper@ == uppercase_of(c),
{
    c.to_uppercase().collect()
}

/// `str::to_lowercase` of std: the lower-case form of `text`.
#[verifier::external_body]
pub(crate) fn str_to_lowercase(text: &str) -> (lower: String)
    ensures
        lower@ == lowercase_of(text@),
{
    text.to_lowercase()
}

/// `String::push` of std: appends `c` to `out`.
#[verifier::external_body]
pub(crate) fn push_char(out: &mut String, c: char)
    ensures
        final(out)@ == old(out)@.push(c),
{
    out.push(c);
}

/// Whether two strings hold the same characters.
pub(crate) fn str_eq(a: &str, b: &str) -> (same: bool)
    ensures
        same == (a@ == b@),
{
    let left = a.to_owned();
    let right = b.to_owned();
    left == right
}

/// The character in position `i` of `plain`.
pub(crate) fn char_at(plain: &Vec<char>, i: usize) -> (c: char)
    requires
        i < plain@.len(),
    ensures
        c == plain@[i as int],
{
    plain[i]
}

/// The characters of `text`, in order.
pub(crate) fn chars_of(text: &str) -> (plain: Vec<char>)
    ensures
        plain@ == text@,
{
    let mut plain: Vec<char> = Vec::new();
    for c in it: text.chars()
        invariant
            it.seq() == text@,
            plain@.len() == it.index(),
            forall|k: int| 0 <= k < plain@.len() ==> plain@[k] == text@[k],
    {
        plain.push(c);
    }
    assert(plain@ =~= text@);
    plain
}

} // verus!
