//! Syntax highlighting of lines for a terminal, done by `syntect` with its
//! built-in syntaxes and themes.

use syntect::easy::HighlightLines;
use syntect::highlighting::{Style, Theme, ThemeSet};
use syntect::parsing::{SyntaxReference, SyntaxSet};
use syntect::util::as_24_bit_terminal_escaped;
use vstd::prelude::*;

verus! {

/// `syntect`'s set of linked syntax definitions.
#[verifier::external_type_specification]
#[verifier::external_body]
pub struct ExSyntaxSet(SyntaxSet);

/// `syntect`'s handle to one syntax of a set.
#[verifier::external_type_specification]
#[verifier::external_body]
pub struct ExSyntaxReference(SyntaxReference);

/// `syntect`'s set of themes.
#[verifier::external_type_specification]
#[verifier::external_body]
pub struct ExThemeSet(ThemeSet);

/// One `syntect` theme.
#[verifier::external_type_specification]
#[verifier::external_body]
pub struct ExTheme(Theme);

/// `syntect`'s line-by-line highlighter, which carries the parse state from
/// one line to the next.
#[verifier::external_type_specification]
#[verifier::external_body]
pub struct ExHighlightLines<'a>(HighlightLines<'a>);

/// `syntect`'s colours and font style of one piece of text.
#[verifier::external_type_specification]
#[verifier::external_body]
pub struct ExStyle(Style);

/// `syntect`'s error.
#[verifier::external_type_specification]
#[verifier::external_body]
pub struct ExError(syntect::Error);

/// `SyntaxSet::load_defaults_newlines` builds the syntax set that ships with
/// `syntect`. Nothing is claimed of it.
pub assume_specification[ SyntaxSet::load_defaults_newlines ]() -> SyntaxSet
;

/// `ThemeSet::load_defaults` builds the theme set that ships with `syntect`.
/// Nothing is claimed of it.
pub assume_specification[ ThemeSet::load_defaults ]() -> ThemeSet
;

/// `SyntaxSet::find_syntax_by_extension` looks a syntax up by file extension.
/// Nothing is claimed of what it finds.
pub assume_specification<'a>[ SyntaxSet::find_syntax_by_extension ](
    set: &'a SyntaxSet,
    extension: &str,
) -> Option<&'a SyntaxReference>
;

/// `HighlightLines::new` starts a highlighter at the top of a file. Nothing is
/// claimed of it.
pub assume_specification<'a>[ HighlightLines::<'a>::new ](
    syntax: &SyntaxReference,
    theme: &'a Theme,
) -> HighlightLines<'a>
;

/// `as_24_bit_terminal_escaped` renders styled pieces as text with terminal
/// colour codes. Nothing is claimed of the text.
pub assume_specification[ as_24_bit_terminal_escaped ](v: &[(Style, &str)], bg: bool) -> String
;

/// The theme of the name `name` in `themes`, by a lookup in the map that a
/// `ThemeSet` holds. Nothing is claimed of what it finds.
#[verifier::external_body]
fn theme_named<'a>(themes: &'a ThemeSet, name: &str) -> Option<&'a Theme> {
    themes.themes.get(name)
}

/// The syntaxes and themes to highlight with.
pub struct Highlighter {
    syntaxes: SyntaxSet,
    themes: ThemeSet,
}

/// A highlighter at work on one file, bound to the set its syntax is from.
pub(crate) struct LineHighlighter<'a> {
    lines: HighlightLines<'a>,
    home: &'a Highlighter,
}

impl Highlighter {
    /// Loads the built-in syntaxes and themes.
    pub fn new() -> Highlighter {
        Highlighter {
            syntaxes: SyntaxSet::load_defaults_newlines(),
            themes: ThemeSet::load_defaults(),
        }
    }

    /// A highlighter for files with the extension `extension`, at the top of
    /// a file; `None` where no syntax or no theme is found.
    pub(crate) fn start<'a>(&'a self, extension: &str, theme: &str) -> Option<LineHighlighter<'a>> {
        match self.syntaxes.find_syntax_by_extension(extension) {
            Some(syntax) => match theme_named(&self.themes, theme) {
                Some(theme) => Some(LineHighlighter { lines: HighlightLines::new(syntax, theme), home: self }),
                None => None,
            },
            None => None,
        }
    }
}

impl<'a> LineHighlighter<'a> {
    /// Highlights the next line of the file with `HighlightLines::highlight_line`,
    /// handing it the syntax set that the highlighter was started from. Nothing
    /// is claimed of the pieces it returns.
    #[verifier::external_body]
    fn highlight_line<'b>(&mut self, line: &'b str) -> Result<Vec<(Style, &'b str)>, syntect::Error> {
        self.lines.highlight_line(line, &self.home.syntaxes)
    }

    /// The next line of the file with terminal colour codes; `None` where the
    /// highlighter fails on it.
    pub(crate) fn next_line(&mut self, line: &str) -> Option<String> {
        match self.highlight_line(line) {
            Ok(pieces) => Some(as_24_bit_terminal_escaped(pieces.as_slice(), false)),
            Err(_) => None,
        }
    }
}

} // verus!
