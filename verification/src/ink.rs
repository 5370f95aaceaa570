//! Language colours from `syntect`: its bundled syntaxes and one of its bundled
//! themes, and the colouring of a text line by line.
use crate::text;
use syntect::easy::HighlightLines;
use syntect::highlighting::{Theme, ThemeSet};
use syntect::parsing::{SyntaxReference, SyntaxSet};
use vstd::prelude::*;

verus! {

/// `syntect`'s set of syntaxes, passed through.
#[verifier::external_type_specification]
#[verifier::external_body]
pub struct ExSyntaxSet(SyntaxSet);

/// `syntect`'s syntax of one language, passed through.
#[verifier::external_type_specification]
#[verifier::external_body]
pub struct ExSyntaxReference(SyntaxReference);

/// `syntect`'s colour theme, passed through.
#[verifier::external_type_specification]
#[verifier::external_body]
pub struct ExTheme(Theme);

/// `syntect`'s line colourer, passed through.
#[verifier::external_type_specification]
#[verifier::external_body]
pub struct ExHighlightLines<'a>(HighlightLines<'a>);

/// The theme for the light backgrounds of the diff lines.
pub const THEME_NAME: &'static str = "InspiredGitHub";

/// A stretch of a line in one colour.
#[derive(Clone, Debug, PartialEq, Eq)]
pub struct Span {
    pub red: u8,
    pub green: u8,
    pub blue: u8,
    pub text: String,
}

/// The text and colour of a [`Span`].
pub ghost struct SpanText {
    pub color: (u8, u8, u8),
    pub text: Seq<char>,
}

impl View for Span {
    type V = SpanText;

    open spec fn view(&self) -> SpanText {
        SpanText { color: (self.red, self.green, self.blue), text: self.text@ }
    }
}

/// The views of a list of spans.
pub open spec fn span_texts(v: Seq<Span>) -> Seq<SpanText> {
    v.map_values(|s: Span| s@)
}

/// The texts of the spans, one after the other.
pub open spec fn covered(v: Seq<SpanText>) -> Seq<char>
    decreases v.len(),
{
    if v.len() == 0 {
        Seq::<char>::empty()
    } else {
        covered(v.drop_last()) + v.last().text
    }
}

/// The name of the bundled syntax for a file extension:
/// `SyntaxSet::find_syntax_by_extension` on `SyntaxSet::load_defaults_newlines`.
pub uninterp spec fn bundled_language(extension: Seq<char>) -> Option<Seq<char>>;

/// The name that a syntax bears.
pub uninterp spec fn syntax_name(syntax: SyntaxReference) -> Seq<char>;

/// The name that a theme has among the bundled ones.
pub uninterp spec fn theme_title(theme: Theme) -> Seq<char>;

/// The names of the syntax and the theme that a colourer was made for, and the lines
/// it has been given since.
pub uninterp spec fn coloured(lines: HighlightLines) -> (Seq<char>, Seq<char>, Seq<Seq<char>>);

/// The colours that `HighlightLines::highlight_line` gives `line` in a language of
/// the bundled syntaxes and one of the bundled themes, after the lines `before`;
/// `None` where it fails.
pub uninterp spec fn line_colors(
    language: Seq<char>,
    theme: Seq<char>,
    before: Seq<Seq<char>>,
    line: Seq<char>,
) -> Option<Seq<SpanText>>;

/// The bundled syntaxes and the theme. It is made by [`Palette::load`] alone, so
/// every palette holds the same.
pub struct Palette {
    set: SyntaxSet,
    theme: Theme,
}

impl Palette {
    #[verifier::type_invariant]
    spec fn has_the_theme(self) -> bool {
        self.theme() == THEME_NAME@
    }

    /// The name of the palette's theme.
    pub closed spec fn theme(self) -> Seq<char> {
        theme_title(self.theme)
    }
}

/// `SyntaxSet::load_defaults_newlines`: the bundled syntaxes for lines that end in
/// a line break. Nothing is claimed of the set.
#[verifier::external_body]
fn load_syntaxes() -> SyntaxSet {
    SyntaxSet::load_defaults_newlines()
}

/// `ThemeSet::load_defaults`: the theme of that name among the bundled ones, of which
/// the documentation lists the names. Claimed: it is the theme of that name.
#[verifier::external_body]
fn bundled_theme(name: &str) -> (r: Theme)
    requires
        name@ == THEME_NAME@,
    ensures
        theme_title(r) == name@,
{
    ThemeSet::load_defaults().themes[name].clone()
}

/// `SyntaxSet::find_syntax_by_extension` on the bundled syntaxes: the syntax for a
/// file extension. Claimed: it depends on the extension alone.
#[verifier::external_body]
pub(crate) fn find_by_extension<'a>(palette: &'a Palette, extension: &str) -> (r: Option<&'a SyntaxReference>)
    ensures
        match r {
            Some(s) => bundled_language(extension@) == Some(syntax_name(*s)),
            None => bundled_language(extension@) is None,
        },
{
    palette.set.find_syntax_by_extension(extension)
}

/// `SyntaxSet::find_syntax_plain_text` on the bundled syntaxes: the syntax without
/// rules. Claimed: its name. The bundled syntaxes have it, so the call does not panic.
#[verifier::external_body]
pub(crate) fn plain_text(palette: &Palette) -> (r: &SyntaxReference)
    ensures
        syntax_name(*r) == "Plain Text"@,
{
    palette.set.find_syntax_plain_text()
}

/// `HighlightLines::new`: a colourer at the start of a text. Claimed: it is for that
/// syntax and that theme and has been given no line.
#[verifier::external_body]
fn new_lines<'a>(syntax: &SyntaxReference, theme: &'a Theme) -> (r: HighlightLines<'a>)
    ensures
        coloured(r) == (syntax_name(*syntax), theme_title(*theme), Seq::<Seq<char>>::empty()),
{
    HighlightLines::new(syntax, theme)
}

/// A colourer at the start of a text in the language of `syntax`.
pub(crate) fn start_lines<'a>(palette: &'a Palette, syntax: &SyntaxReference) -> (r: HighlightLines<'a>)
    ensures
        coloured(r) == (syntax_name(*syntax), THEME_NAME@, Seq::<Seq<char>>::empty()),
{
    proof {
        use_type_invariant(palette);
    }
    new_lines(syntax, &palette.theme)
}

/// `HighlightLines::highlight_line`: the colours of the next line. Claimed: they
/// depend on the language, the theme, the lines given before and this line; the line
/// counts as given, even where the call fails; and the spans are the line's text from
/// its beginning, one after the other.
#[verifier::external_body]
pub(crate) fn next_line(palette: &Palette, lines: &mut HighlightLines, line: &str) -> (r: Option<Vec<Span>>)
    ensures
        coloured(*final(lines)) == (
            coloured(*old(lines)).0,
            coloured(*old(lines)).1,
            coloured(*old(lines)).2.push(line@),
        ),
        line_colors(
            coloured(*old(lines)).0,
            coloured(*old(lines)).1,
            coloured(*old(lines)).2,
            line@,
        ) == match r {
            Some(v) => Some(span_texts(v@)),
            None => None,
        },
        r matches Some(v) ==> covered(span_texts(v@)).is_prefix_of(line@),
{
    match lines.highlight_line(line, &palette.set) {
        Ok(v) => Some(
            v.into_iter().map(
                |(s, t)|
                    Span {
                        red: s.foreground.r,
                        green: s.foreground.g,
                        blue: s.foreground.b,
                        text: t.to_string(),
                    },
            ).collect(),
        ),
        Err(_) => None,
    }
}

impl Palette {
    /// Loads the bundled syntaxes and the theme.
    pub fn load() -> (r: Palette)
        ensures
            r.theme() == THEME_NAME@,
    {
        let set = load_syntaxes();
        let theme = bundled_theme(THEME_NAME);
        Palette { set, theme }
    }
}

} // verus!
