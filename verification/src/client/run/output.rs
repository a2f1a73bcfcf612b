//! Where the output of a run goes, and how it looks.
use std::sync::Arc;

use vstd::prelude::*;

verus! {

#[verifier::external_type_specification]
#[verifier::external_body]
#[verifier::reject_recursive_types(T)]
pub struct ExMutex<T: ?Sized>(std::sync::Mutex<T>);

/// `Mutex::new`: a mutex around the value. What it holds may change behind a
/// shared reference, so nothing is said of it.
pub assume_specification<T>[ std::sync::Mutex::<T>::new ](t: T) -> std::sync::Mutex<T>;

/// What is left of a styled text when its styling is taken out.
pub uninterp spec fn unstyled(text: Seq<char>) -> Seq<char>;

/// Whether the text is made of printable ASCII characters and line breaks.
pub open spec fn plain_ascii(text: Seq<char>) -> bool {
    forall|i: int| 0 <= i < text.len() ==> ' ' <= #[trigger] text[i] <= '~' || text[i] == '\n'
}

/// `clap::builder::StyledStr` without its colors: its `Display` strips the
/// escape codes. A text of printable ASCII has none, and stays as it is.
#[verifier::external_body]
fn without_style(text: &str) -> (r: String)
    ensures
        r@ == unstyled(text@),
        plain_ascii(text@) ==> r@ == text@,
{
    clap::builder::StyledStr::from(text.to_owned()).to_string()
}

/// `clap::builder::StyledStr::ansi`: the text with its escape codes, as it was
/// put in.
#[verifier::external_body]
fn with_style(text: &str) -> (r: String)
    ensures
        r@ == text@,
{
    clap::builder::StyledStr::from(text.to_owned()).ansi().to_string()
}

/// Where the output of a run goes and whether it is colored. The writer is
/// shared: every part of a run writes to the same place.
#[verifier::reject_recursive_types(W)]
pub struct CliRunOutput<W> {
    writer: Arc<std::sync::Mutex<W>>,
    force_color: bool,
}

/// A styled text as it is written: with its escape codes, or without.
pub open spec fn rendered(text: Seq<char>, color: bool) -> Seq<char> {
    if color {
        text
    } else {
        unstyled(text)
    }
}

impl<W> CliRunOutput<W> {
    /// The shared writer.
    pub closed spec fn sink(self) -> Arc<std::sync::Mutex<W>> {
        self.writer
    }

    /// Whether the output is colored.
    pub closed spec fn color(self) -> bool {
        self.force_color
    }

    /// Output to a writer of the caller's; not colored.
    pub fn new(w: W) -> (r: CliRunOutput<W>)
        ensures
            !r.color(),
    {
        CliRunOutput { writer: Arc::new(std::sync::Mutex::new(w)), force_color: false }
    }

    /// Output to the process's standard output; colored where that is a
    /// terminal.
    pub fn stdout(out: W, is_terminal: bool) -> (r: CliRunOutput<W>)
        ensures
            r.color() == is_terminal,
    {
        CliRunOutput { writer: Arc::new(std::sync::Mutex::new(out)), force_color: is_terminal }
    }

    /// Output to a writer that the caller keeps a handle to; not colored.
    pub fn from_writer_arc(w: Arc<std::sync::Mutex<W>>) -> (r: CliRunOutput<W>)
        ensures
            r.sink() == w,
            !r.color(),
    {
        CliRunOutput { writer: w, force_color: false }
    }

    /// Output to the same writer, with the same setting.
    pub fn clone_shared(&self) -> (r: CliRunOutput<W>)
        ensures
            r.sink() == self.sink(),
            r.color() == self.color(),
    {
        CliRunOutput { writer: Arc::clone(&self.writer), force_color: self.force_color }
    }

    /// Switches color on or off.
    pub fn force_color(self, enable: bool) -> (r: CliRunOutput<W>)
        ensures
            r.sink() == self.sink(),
            r.color() == enable,
    {
        CliRunOutput { writer: self.writer, force_color: enable }
    }

    /// The shared writer.
    pub fn writer(&self) -> (r: &Arc<std::sync::Mutex<W>>)
        ensures
            *r == self.sink(),
    {
        &self.writer
    }

    /// Whether the output is colored.
    pub fn is_force_color(&self) -> (r: bool)
        ensures
            r == self.color(),
    {
        self.force_color
    }

    /// The text to write for a line: the line and a line break.
    pub fn print(&self, s: &str) -> (r: String)
        ensures
            r@ == s@.push('\n'),
    {
        let mut out: String = s.to_owned();
        out.push('\n');
        out
    }

    /// A styled text as it is to be written: with its escape codes where the
    /// output is colored, without them elsewhere.
    pub fn render_styled(&self, styled: &str) -> (r: String)
        ensures
            r@ == rendered(styled@, self.color()),
            plain_ascii(styled@) ==> r@ == styled@,
    {
        if self.force_color {
            with_style(styled)
        } else {
            without_style(styled)
        }
    }

    /// The text to write for a styled line.
    pub fn print_styled(&self, styled: &str) -> (r: String)
        ensures
            r@ == rendered(styled@, self.color()).push('\n'),
    {
        self.print(self.render_styled(styled).as_str())
    }

    /// The settings, for logs.
    pub fn debug_text(&self) -> (r: String)
        ensures
            r@ == (if self.color() {
                "CliRunOutput { force_color: true, .. }"@
            } else {
                "CliRunOutput { force_color: false, .. }"@
            }),
    {
        if self.force_color {
            "CliRunOutput { force_color: true, .. }".to_owned()
        } else {
            "CliRunOutput { force_color: false, .. }".to_owned()
        }
    }
}

/// Colored output keeps its escape codes; other output has them taken out,
/// whatever the text is.
pub proof fn color_decides_on_the_codes(text: Seq<char>)
    ensures
        rendered(text, true) == text,
        rendered(text, false) == unstyled(text),
{
}

} // verus!
