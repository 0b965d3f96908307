//! Names of the files that the chapters are written to.

use vstd::prelude::*;
use vstd::string::StringExecFns;
use crate::text::push_char;

verus! {

/// The longest title, in characters, that goes into a file name.
pub const TITLE_LIMIT: usize = 50;

/// The character is a control code of Unicode: U+0000 to U+001F, or U+007F
/// to U+009F.
pub open spec fn is_control(c: char) -> bool {
    c as u32 <= 0x1F || 0x7F <= c as u32 <= 0x9F
}

/// The character is one that file systems give a meaning of their own.
pub open spec fn is_reserved(c: char) -> bool {
    c == '/' || c == '\\' || c == '?' || c == '%' || c == '*' || c == ':' || c == '|' || c == '"'
        || c == '<' || c == '>' || c == '.'
}

/// The character cannot stand in a file name.
pub open spec fn is_unsafe(c: char) -> bool {
    is_reserved(c) || is_control(c)
}

/// The character that stands in a file name for `c`.
pub open spec fn safe_char(c: char) -> char {
    if is_unsafe(c) {
        '_'
    } else {
        c
    }
}

/// A text with a placeholder in place of each character that cannot stand
/// in a file name.
pub open spec fn sanitized(name: Seq<char>) -> Seq<char> {
    Seq::new(name.len(), |i: int| safe_char(name[i]))
}

/// The first `limit` characters of a text, or all of it.
pub open spec fn shortened(name: Seq<char>, limit: nat) -> Seq<char> {
    if name.len() <= limit {
        name
    } else {
        name.take(limit as int)
    }
}

/// The digit that stands for a number below ten.
pub open spec fn digit(d: nat) -> char {
    ((48 + d) as u8) as char
}

/// A number written in decimal digits.
pub open spec fn decimal(n: nat) -> Seq<char>
    decreases n,
{
    if n < 10 {
        seq![digit(n)]
    } else {
        decimal(n / 10).push(digit(n % 10))
    }
}

/// The name of the file for a chapter: the name of the source without its
/// extension, the number of the chapter, and its title made safe and short.
pub open spec fn file_name(stem: Seq<char>, ordinal: nat, title: Seq<char>) -> Seq<char> {
    stem + "_chapter_"@ + decimal(ordinal) + "_"@ + shortened(sanitized(title), TITLE_LIMIT as nat)
        + ".pdf"@
}

/// A sanitized text has the length of the text, keeps every character that
/// can stand in a file name, and holds none that cannot.
pub proof fn lemma_sanitized_is_safe(name: Seq<char>)
    ensures
        sanitized(name).len() == name.len(),
        forall|i: int| 0 <= i < name.len() ==> !is_unsafe(#[trigger] sanitized(name)[i]),
        forall|i: int|
            0 <= i < name.len() && !is_unsafe(name[i]) ==> #[trigger] sanitized(name)[i] == name[i],
{
}

/// A text that can stand in a file name as it is comes out unchanged.
pub proof fn lemma_sanitized_of_safe(name: Seq<char>)
    requires
        forall|i: int| 0 <= i < name.len() ==> !is_unsafe(#[trigger] name[i]),
    ensures
        sanitized(name) == name,
{
}

/// Sanitizing twice changes nothing more.
pub proof fn lemma_sanitized_twice(name: Seq<char>)
    ensures
        sanitized(sanitized(name)) == sanitized(name),
{
    lemma_sanitized_is_safe(name);
    lemma_sanitized_of_safe(sanitized(name));
}

/// Whether a character cannot stand in a file name.
pub fn unsafe_in_file_name(c: char) -> (r: bool)
    ensures
        r == is_unsafe(c),
{
    let code: u32 = c as u32;
    c == '/' || c == '\\' || c == '?' || c == '%' || c == '*' || c == ':' || c == '|' || c == '"'
        || c == '<' || c == '>' || c == '.' || code <= 0x1F || (0x7F <= code && code <= 0x9F)
}

/// Makes a text fit for a file name: each character that cannot stand in
/// one gives way to an underscore, and every other character stays.
pub fn sanitize(name: &str) -> (r: String)
    ensures
        r@ == sanitized(name@),
{
    let mut out = String::new();
    for c in it: name.chars()
        invariant
            it.seq() == name@,
            out@ == sanitized(name@.take(it.index() as int)),
    {
        let safe = if unsafe_in_file_name(c) {
            '_'
        } else {
            c
        };
        push_char(&mut out, safe);
    }
    out
}

/// The first `limit` characters of a text, or all of it.
pub fn shorten(name: &str, limit: usize) -> (r: String)
    ensures
        r@ == shortened(name@, limit as nat),
{
    let mut out = String::new();
    let mut taken: usize = 0;
    for c in it: name.chars()
        invariant
            it.seq() == name@,
            taken <= limit,
            taken == (if it.index() <= limit { it.index() } else { limit as int }),
            out@ == name@.take(taken as int),
    {
        if taken < limit {
            push_char(&mut out, c);
            taken = taken + 1;
        }
    }
    out
}

/// Writes a number in decimal digits.
pub fn write_decimal(n: usize) -> (r: String)
    ensures
        r@ == decimal(n as nat),
{
    let mut digits: Vec<char> = Vec::new();
    let mut rest: usize = n;
    // The digits come out last first.
    while rest >= 10
        invariant
            decimal(n as nat) == decimal(rest as nat) + digits@.reverse(),
        decreases rest,
    {
        let d: u8 = (rest % 10) as u8;
        let c: char = (48 + d) as char;
        digits.push(c);
        rest = rest / 10;
    }
    let first: char = (48 + rest as u8) as char;
    let mut out = String::new();
    push_char(&mut out, first);
    let mut i: usize = digits.len();
    while i > 0
        invariant
            i <= digits@.len(),
            out@ == decimal(rest as nat) + digits@.reverse().take(digits@.len() - i),
        decreases i,
    {
        i = i - 1;
        push_char(&mut out, digits[i]);
    }
    out
}

/// The name of the file that chapter number `ordinal` is written to.
pub fn chapter_file_name(stem: &str, ordinal: usize, title: &str) -> (r: String)
    ensures
        r@ == file_name(stem@, ordinal as nat, title@),
{
    let safe = sanitize(title);
    let short = shorten(safe.as_str(), TITLE_LIMIT);
    let number = write_decimal(ordinal);
    let mut out = stem.to_owned();
    out.append("_chapter_");
    out.append(number.as_str());
    out.append("_");
    out.append(short.as_str());
    out.append(".pdf");
    out
}

} // verus!
