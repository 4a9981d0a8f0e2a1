use vstd::prelude::*;

verus! {

/// Appends one character to a string: `String::push` from std.
/// Trusted: the new view is the old view with `c` added at the end.
#[verifier::external_body]
pub fn push_char(s: &mut String, c: char)
    ensures
        final(s)@ == old(s)@.push(c),
{
    s.push(c);
}

/// Removes the last character of a string, if it has one: `String::pop` from
/// std. Trusted: the new view is the old one without its last character.
#[verifier::external_body]
pub fn pop_char(s: &mut String)
    ensures
        final(s)@ == (if old(s)@.len() > 0 {
            old(s)@.drop_last()
        } else {
            old(s)@
        }),
{
    s.pop();
}

/// What `str::to_lowercase` gives for `s` (the full Unicode lowercase mapping).
pub uninterp spec fn lowercase(s: Seq<char>) -> Seq<char>;

/// `str::to_lowercase` from std. Trusted: the result is `lowercase` of the
/// argument; nothing more is said of the mapping itself.
#[verifier::external_body]
pub fn to_lowercase(s: &str) -> (r: String)
    ensures
        r@ == lowercase(s@),
{
    s.to_lowercase()
}

/// What `textwrap::wrap(line, textwrap::Options::new(width))` gives: the
/// lines of `line` filled to at most `width` columns.
pub uninterp spec fn wrapped(line: Seq<char>, width: nat) -> Seq<Seq<char>>;

/// `textwrap::wrap` with the default options for `width`. Trusted: the lines
/// it returns are `wrapped(line, width)`, and none holds a line feed (it
/// splits its input at each `\n` and builds each line from a piece of one part,
/// with at most a hyphen added); where the lines break and how wide they are
/// is left to that name.
#[verifier::external_body]
pub fn wrap_line(line: &str, width: usize) -> (r: Vec<String>)
    ensures
        r.deep_view() == wrapped(line@, width as nat),
        forall|k: int, j: int|
            0 <= k < r.len() && 0 <= j < r[k]@.len() ==> #[trigger] r[k]@[j] != '\n',
{
    textwrap::wrap(line, textwrap::Options::new(width)).into_iter().map(|l| l.into_owned()).collect()
}

/// What html2text's plain renderer gives for the document `html` at `width`
/// columns: `Some` text, or `None` where it reports an error.
pub uninterp spec fn rendered(html: Seq<char>, width: nat) -> Option<Seq<char>>;

/// `html2text::config::plain().string_from_read(html.as_bytes(), width)`, the
/// call behind `html2text::from_read`. Trusted: the result is `rendered(html,
/// width)`, the error mapped to `None`; the rendering itself is left to that name.
#[verifier::external_body]
pub fn render_html(html: &str, width: usize) -> (r: Option<String>)
    ensures
        match r {
            Some(t) => rendered(html@, width as nat) == Some(t@),
            None => rendered(html@, width as nat) is None,
        },
{
    html2text::config::plain().string_from_read(html.as_bytes(), width).ok()
}

} // verus!
