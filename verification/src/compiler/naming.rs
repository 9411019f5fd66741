use super::text::char_at;
use super::text::char_is_alphanumeric;
use super::text::char_to_uppercase;
use super::text::chars_of;
use super::text::is_alphanumeric;
use super::text::lowercase_of;
use super::text::push_char;
use super::text::str_to_lowercase;
use super::text::uppercase_of;
use vstd::prelude::*;

verus! {

/// What the naming rule needs to know of a character: the character,
/// whether it is alphanumeric, and its upper-case form.
pub struct CharInfo {
    pub c: char,
    pub alphanumeric: bool,
    pub upper: Seq<char>,
}

/// A character of a name with what the naming rule needs to know of it.
pub struct NameChar {
    pub c: char,
    pub alphanumeric: bool,
    pub upper: Vec<char>,
}

impl NameChar {
    /// The same knowledge as mathematical values.
    pub open spec fn view(&self) -> CharInfo {
        CharInfo { c: self.c, alphanumeric: self.alphanumeric, upper: self.upper@ }
    }
}

/// The knowledge of each of `chars`, in order.
pub open spec fn infos(chars: Seq<NameChar>) -> Seq<CharInfo> {
    Seq::new(chars.len(), |i: int| chars[i]@)
}

/// What Unicode says of `c`.
pub open spec fn char_info(c: char) -> CharInfo {
    CharInfo { c, alphanumeric: is_alphanumeric(c), upper: uppercase_of(c) }
}

/// What Unicode says of each character of `name`, in order.
pub open spec fn name_infos(name: Seq<char>) -> Seq<CharInfo> {
    Seq::new(name.len(), |i: int| char_info(name[i]))
}

/// What the character in position `i` contributes to the name: nothing
/// when it is not alphanumeric, its upper-case form when it starts a run
/// of alphanumeric characters, and itself otherwise.
pub open spec fn name_piece(chars: Seq<CharInfo>, i: int) -> Seq<char> {
    if !chars[i].alphanumeric {
        Seq::empty()
    } else if i == 0 || !chars[i - 1].alphanumeric {
        chars[i].upper
    } else {
        seq![chars[i].c]
    }
}

/// The name in upper camel case: the alphanumeric runs of `chars`, each
/// with its first character in upper case, joined without separators.
pub open spec fn camel_case(chars: Seq<CharInfo>) -> Seq<char>
    decreases chars.len(),
{
    if chars.len() == 0 {
        Seq::empty()
    } else {
        camel_case(chars.drop_last()) + name_piece(chars, chars.len() - 1)
    }
}

/// The identifier in upper camel case that the display name `name` gives:
/// every character that is not alphanumeric separates words and is
/// dropped, and every word starts in upper case.
pub open spec fn rust_name(name: Seq<char>) -> Seq<char> {
    camel_case(name_infos(name))
}

/// Looks up the Unicode class and the upper-case form of every character
/// of `name`.
pub fn classify(name: &str) -> (classes: Vec<NameChar>)
    ensures
        infos(classes@) == name_infos(name@),
{
    let plain = chars_of(name);
    let mut classes: Vec<NameChar> = Vec::new();
    let n = plain.len();
    let mut i: usize = 0;
    while i < n
        invariant
            i <= n,
            n == plain@.len(),
            plain@ == name@,
            classes@.len() == i,
            forall|k: int|
                0 <= k < classes@.len() ==> (#[trigger] classes@[k])@ == char_info(name@[k]),
        decreases n - i,
    {
        let c = char_at(&plain, i);
        let alphanumeric = char_is_alphanumeric(c);
        let upper = char_to_uppercase(c);
        classes.push(NameChar { c, alphanumeric, upper });
        i += 1;
    }
    assert(infos(classes@) =~= name_infos(name@));
    classes
}

/// Writes the name in upper camel case: drops every character that is not
/// alphanumeric, and puts the first character of every alphanumeric run in
/// upper case.
pub fn assemble_rust_name(chars: &Vec<NameChar>) -> (ident: String)
    ensures
        ident@ == camel_case(infos(chars@)),
{
    let mut ident = String::new();
    let mut in_word = false;
    let n = chars.len();
    let mut i: usize = 0;
    let ghost all = infos(chars@);
    assert(all.take(0) =~= Seq::<CharInfo>::empty());
    while i < n
        invariant
            i <= n,
            n == chars@.len(),
            all == infos(chars@),
            ident@ == camel_case(all.take(i as int)),
            in_word == (i > 0 && chars@[i - 1].alphanumeric),
        decreases n - i,
    {
        let ghost before = ident@;
        let ghost prefix = all.take(i + 1);
        proof {
            assert(prefix.drop_last() =~= all.take(i as int));
            assert(prefix[i as int] == chars@[i as int]@);
            assert(i > 0 ==> prefix[i - 1] == chars@[i - 1]@);
        }
        if chars[i].alphanumeric {
            if in_word {
                push_char(&mut ident, chars[i].c);
                assert(ident@ =~= before + seq![chars@[i as int].c]);
            } else {
                let upper = &chars[i].upper;
                let mut k: usize = 0;
                while k < upper.len()
                    invariant
                        k <= upper@.len(),
                        ident@ == before + upper@.take(k as int),
                    decreases upper@.len() - k,
                {
                    push_char(&mut ident, upper[k]);
                    assert(ident@ =~= before + upper@.take(k + 1));
                    k += 1;
                }
                assert(upper@.take(upper@.len() as int) =~= upper@);
            }
            in_word = true;
        } else {
            in_word = false;
            assert(ident@ =~= before + Seq::<char>::empty());
        }
        i += 1;
    }
    assert(all.take(n as int) =~= all);
    ident
}

/// Turns a display name into an identifier in upper camel case: every
/// character that is not alphanumeric separates words and is dropped, and
/// every word starts in upper case.
pub fn to_rust_name(name: &str) -> (ident: String)
    ensures
        ident@ == rust_name(name@),
{
    let chars = classify(name);
    assemble_rust_name(&chars)
}

/// `text` with an underscore in place of every space.
pub open spec fn underscored(text: Seq<char>) -> Seq<char> {
    Seq::new(text.len(), |i: int| if text[i] == ' ' {
        '_'
    } else {
        text[i]
    })
}

/// Writes `text` with an underscore in place of every space.
pub fn spaces_to_underscores(text: &str) -> (replaced: String)
    ensures
        replaced@ == underscored(text@),
{
    let plain = chars_of(text);
    let mut replaced = String::new();
    let n = plain.len();
    let mut i: usize = 0;
    while i < n
        invariant
            i <= n,
            n == plain@.len(),
            replaced@ == underscored(plain@).take(i as int),
        decreases n - i,
    {
        let c = char_at(&plain, i);
        if c == ' ' {
            push_char(&mut replaced, '_');
        } else {
            push_char(&mut replaced, c);
        }
        assert(replaced@ =~= underscored(plain@).take(i + 1));
        i += 1;
    }
    assert(underscored(plain@).take(n as int) =~= underscored(plain@));
    replaced
}

/// The name of the package and of the executable of a project: the
/// project's name in lower case, with underscores for spaces.
pub fn package_name(project_name: &str) -> (name: String)
    ensures
        name@ == underscored(lowercase_of(project_name@)),
{
    let lower = str_to_lowercase(project_name);
    spaces_to_underscores(lower.as_str())
}

} // verus!
