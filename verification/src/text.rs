use vstd::prelude::*;

verus! {

/// A string in lower case, as `str::to_lowercase` maps it (the Unicode
/// lower-case mapping).
pub uninterp spec fn lowercased(s: Seq<char>) -> Seq<char>;

/// ASCII lower case: `A` to `Z` become `a` to `z`, every other character is
/// kept.
pub open spec fn ascii_lower(s: Seq<char>) -> Seq<char> {
    s.map_values(|c: char| if 'A' <= c && c <= 'Z' {
        ((c as int) + 32) as char
    } else {
        c
    })
}

/// The pieces of `s` between occurrences of `sep`: one more piece than
/// there are separators, empty pieces included.
pub open spec fn split_on(s: Seq<char>, sep: char) -> Seq<Seq<char>>
    decreases s.len(),
{
    if s.len() == 0 {
        seq![Seq::<char>::empty()]
    } else if s.last() == sep {
        split_on(s.drop_last(), sep).push(Seq::empty())
    } else {
        let p = split_on(s.drop_last(), sep);
        p.update(p.len() - 1, p.last().push(s.last()))
    }
}

/// The pieces of `s` between commas, as `str::split(',')` yields them.
pub open spec fn split_commas(s: Seq<char>) -> Seq<Seq<char>> {
    split_on(s, ',')
}

/// A line without the carriage return that ends it, if any.
pub open spec fn strip_cr(line: Seq<char>) -> Seq<char> {
    if line.len() > 0 && line.last() == '\r' {
        line.drop_last()
    } else {
        line
    }
}

/// The lines of a text as `str::lines` splits it: at each `\n`, dropping a
/// `\r` just before it; the final line ending is optional, and an empty text
/// has no lines.
pub open spec fn text_lines(text: Seq<char>) -> Seq<Seq<char>> {
    if text.len() == 0 {
        Seq::empty()
    } else {
        let pieces = split_on(text, '\n');
        let ended = pieces.drop_last().map_values(|l: Seq<char>| strip_cr(l));
        if text.last() == '\n' {
            ended
        } else {
            ended.push(pieces.last())
        }
    }
}

/// Whether `c` has the Unicode `White_Space` property, which `str::trim`
/// removes.
pub open spec fn is_white_space(c: char) -> bool {
    ||| ('\u{9}' <= c && c <= '\u{d}')
    ||| c == ' '
    ||| c == '\u{85}'
    ||| c == '\u{a0}'
    ||| c == '\u{1680}'
    ||| ('\u{2000}' <= c && c <= '\u{200a}')
    ||| c == '\u{2028}'
    ||| c == '\u{2029}'
    ||| c == '\u{202f}'
    ||| c == '\u{205f}'
    ||| c == '\u{3000}'
}

/// `s` without its leading white space.
pub open spec fn trim_start(s: Seq<char>) -> Seq<char>
    decreases s.len(),
{
    if s.len() > 0 && is_white_space(s[0]) {
        trim_start(s.drop_first())
    } else {
        s
    }
}

/// `s` without its trailing white space.
pub open spec fn trim_end(s: Seq<char>) -> Seq<char>
    decreases s.len(),
{
    if s.len() > 0 && is_white_space(s.last()) {
        trim_end(s.drop_last())
    } else {
        s
    }
}

/// A string with leading and trailing white space removed, as `str::trim`
/// does.
pub open spec fn trimmed(s: Seq<char>) -> Seq<char> {
    trim_end(trim_start(s))
}

/// Calls `str::lines`: the lines of `text`, each without its line ending.
#[verifier::external_body]
pub(crate) fn split_lines(text: &str) -> (lines: Vec<&str>)
    ensures
        lines@.len() == text_lines(text@).len(),
        forall|i: int| 0 <= i < lines@.len() ==> (#[trigger] lines@[i])@ == text_lines(text@)[i],
{
    text.lines().collect()
}

/// Calls `str::trim`: leading and trailing white space removed.
#[verifier::external_body]
pub(crate) fn trim_str(s: &str) -> (r: &str)
    ensures
        r@ == trimmed(s@),
{
    s.trim()
}

/// Calls `str::to_lowercase`. The full Unicode mapping is left to the name
/// `lowercased`; on an ASCII string it is ASCII lower case.
#[verifier::external_body]
pub(crate) fn to_lower(s: &str) -> (r: String)
    ensures
        r@ == lowercased(s@),
        vstd::utf8::is_ascii_chars(s@) ==> r@ == ascii_lower(s@),
{
    s.to_lowercase()
}

/// Calls `str::split` with the pattern `','`: the pieces between commas.
#[verifier::external_body]
pub(crate) fn split_on_commas(s: &str) -> (pieces: Vec<&str>)
    ensures
        pieces@.len() == split_commas(s@).len(),
        forall|i: int| 0 <= i < pieces@.len() ==> (#[trigger] pieces@[i])@ == split_commas(s@)[i],
{
    s.split(',').collect()
}

/// `s` with every double quote doubled, as a CSV field's content is escaped.
pub open spec fn double_quotes(s: Seq<char>) -> Seq<char>
    decreases s.len(),
{
    if s.len() == 0 {
        Seq::empty()
    } else {
        double_quotes(s.drop_last()) + if s.last() == '"' {
            seq!['"', '"']
        } else {
            seq![s.last()]
        }
    }
}

/// Calls `str::replace` to replace each `"` by `""`.
#[verifier::external_body]
pub(crate) fn replace_double_quotes(s: &str) -> (r: String)
    ensures
        r@ == double_quotes(s@),
{
    s.replace('"', "\"\"")
}

/// The comma-separated fields of a line, each trimmed.
pub open spec fn csv_fields(line: Seq<char>) -> Seq<Seq<char>> {
    split_commas(line).map_values(|f: Seq<char>| trimmed(f))
}

/// Splits a line at commas and trims each field.
pub fn split_fields(line: &str) -> (fields: Vec<String>)
    ensures
        fields@.len() == csv_fields(line@).len(),
        forall|i: int| 0 <= i < fields@.len() ==> (#[trigger] fields@[i])@ == csv_fields(line@)[i],
{
    let pieces = split_on_commas(line);
    let mut fields: Vec<String> = Vec::new();
    let mut i: usize = 0;
    while i < pieces.len()
        invariant
            i <= pieces@.len(),
            pieces@.len() == split_commas(line@).len(),
            forall|k: int| 0 <= k < pieces@.len() ==> (#[trigger] pieces@[k])@ == split_commas(line@)[k],
            fields@.len() == i,
            forall|k: int| 0 <= k < i ==> (#[trigger] fields@[k])@ == csv_fields(line@)[k],
        decreases pieces.len() - i,
    {
        let f = trim_str(pieces[i]);
        fields.push(String::from_str(f));
        i += 1;
    }
    fields
}

} // verus!
