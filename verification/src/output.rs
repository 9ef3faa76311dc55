//! What a renderer is told: the format, the destination and the colours.

use vstd::prelude::*;
use vstd::string::StringExecFns;
use crate::text::{eq_ignore_case, is_word, push_chars, to_chars};

verus! {

/// The format of a report.
#[derive(Debug, Clone, Copy, PartialEq, Eq, Structural)]
pub enum OutputFormat {
    Table,
    Json,
    NdJson,
    Csv,
}

/// The format that a word names, in any case.
pub open spec fn format_of(s: Seq<char>) -> Option<OutputFormat> {
    if eq_ignore_case(s, "table"@) {
        Some(OutputFormat::Table)
    } else if eq_ignore_case(s, "json"@) {
        Some(OutputFormat::Json)
    } else if eq_ignore_case(s, "ndjson"@) {
        Some(OutputFormat::NdJson)
    } else if eq_ignore_case(s, "csv"@) {
        Some(OutputFormat::Csv)
    } else {
        None
    }
}

impl OutputFormat {
    /// Reads the name of a format; the error is the message for the user.
    pub fn from_str(s: &str) -> (r: Result<OutputFormat, String>)
        ensures
            match format_of(s@) {
                Some(f) => r == Ok::<OutputFormat, String>(f),
                None => r matches Err(m) && m@ == "Unknown output format: "@ + s@
                    + ". Supported: table, json, ndjson, csv"@,
            },
    {
        let chars = to_chars(s);
        let word = chars.as_slice();
        if is_word(word, "table") {
            Ok(OutputFormat::Table)
        } else if is_word(word, "json") {
            Ok(OutputFormat::Json)
        } else if is_word(word, "ndjson") {
            Ok(OutputFormat::NdJson)
        } else if is_word(word, "csv") {
            Ok(OutputFormat::Csv)
        } else {
            let mut m = "Unknown output format: ".to_owned();
            push_chars(&mut m, word);
            m.append(". Supported: table, json, ndjson, csv");
            Err(m)
        }
    }
}

/// When a report is coloured.
#[derive(Debug, Clone, Copy, PartialEq, Eq, Structural)]
pub enum ColorMode {
    Auto,
    Always,
    Never,
}

/// The mode that a word names, in any case; an unknown word names `Auto`.
pub open spec fn mode_of(s: Seq<char>) -> ColorMode {
    if eq_ignore_case(s, "always"@) {
        ColorMode::Always
    } else if eq_ignore_case(s, "never"@) {
        ColorMode::Never
    } else {
        ColorMode::Auto
    }
}

impl ColorMode {
    pub fn from_str(s: &str) -> (r: ColorMode)
        ensures
            r == mode_of(s@),
    {
        let chars = to_chars(s);
        if is_word(chars.as_slice(), "always") {
            ColorMode::Always
        } else if is_word(chars.as_slice(), "never") {
            ColorMode::Never
        } else {
            ColorMode::Auto
        }
    }

    /// Whether to colour a report that goes to a terminal or elsewhere.
    pub fn should_colorize(&self, is_tty: bool) -> (r: bool)
        ensures
            r == match self {
                ColorMode::Always => true,
                ColorMode::Never => false,
                ColorMode::Auto => is_tty,
            },
    {
        match self {
            ColorMode::Always => true,
            ColorMode::Never => false,
            ColorMode::Auto => is_tty,
        }
    }
}

/// What a renderer is told.
#[derive(Debug, Clone)]
pub struct Renderer {
    pub format: OutputFormat,
    pub output_path: Option<String>,
    pub color_mode: ColorMode,
}

impl Renderer {
    /// A renderer that writes to the standard output and colours a report
    /// that goes to a terminal.
    pub fn new(format: OutputFormat) -> (r: Renderer)
        ensures
            r.format == format,
            r.output_path is None,
            r.color_mode == ColorMode::Auto,
    {
        Renderer { format, output_path: None, color_mode: ColorMode::Auto }
    }

    pub fn with_output(self, path: Option<String>) -> (r: Renderer)
        ensures
            r.format == self.format,
            r.output_path == path,
            r.color_mode == self.color_mode,
    {
        Renderer { format: self.format, output_path: path, color_mode: self.color_mode }
    }

    pub fn with_color(self, mode: ColorMode) -> (r: Renderer)
        ensures
            r.format == self.format,
            r.output_path == self.output_path,
            r.color_mode == mode,
    {
        Renderer { format: self.format, output_path: self.output_path, color_mode: mode }
    }

    /// Whether to colour the report, given whether the standard output is a
    /// terminal: a report that goes to a file counts as going elsewhere.
    pub fn use_color(&self, stdout_is_terminal: bool) -> (r: bool)
        ensures
            r == match self.color_mode {
                ColorMode::Always => true,
                ColorMode::Never => false,
                ColorMode::Auto => self.output_path is None && stdout_is_terminal,
            },
    {
        let is_tty = self.output_path.is_none() && stdout_is_terminal;
        self.color_mode.should_colorize(is_tty)
    }
}

/// Whether a field has to be quoted in a line of comma-separated values.
pub open spec fn needs_quotes(s: Seq<char>) -> bool {
    s.contains(',') || s.contains('"') || s.contains('\n')
}

/// `s` with every quote doubled.
pub open spec fn doubled(s: Seq<char>) -> Seq<char>
    decreases s.len(),
{
    if s.len() == 0 {
        Seq::empty()
    } else if s.last() == '"' {
        doubled(s.drop_last()) + seq!['"', '"']
    } else {
        doubled(s.drop_last()).push(s.last())
    }
}

/// A field as it stands in a line of comma-separated values.
pub open spec fn escaped(s: Seq<char>) -> Seq<char> {
    if needs_quotes(s) {
        seq!['"'] + doubled(s) + seq!['"']
    } else {
        s
    }
}

/// Quotes a field where it holds a comma, a quote or a line break.
pub fn escape_csv(s: &str) -> (r: String)
    ensures
        r@ == escaped(s@),
{
    let chars = to_chars(s);
    let n: usize = chars.len();
    let mut special = false;
    let mut body: Vec<char> = Vec::new();
    body.push('"');
    let mut i: usize = 0;
    assert(chars@.take(0) =~= Seq::empty());
    assert(body@ =~= seq!['"'] + doubled(chars@.take(0)));
    while i < n
        invariant
            i <= n == chars@.len(),
            special == needs_quotes(chars@.take(i as int)),
            body@ == seq!['"'] + doubled(chars@.take(i as int)),
        decreases n - i,
    {
        let c = chars[i];
        let ghost before = chars@.take(i as int);
        let ghost now = chars@.take(i + 1);
        proof {
            assert(now.drop_last() =~= before);
            assert(now.last() == c);
            assert(now =~= before.push(c));
            assert forall|x: char| now.contains(x) == (before.contains(x) || x == c) by {
                if before.contains(x) {
                    let k = choose|k: int| 0 <= k < before.len() && before[k] == x;
                    assert(now[k] == x);
                }
                if x == c {
                    assert(now[i as int] == x);
                }
            }
        }
        if c == ',' || c == '"' || c == '\n' {
            special = true;
        }
        if c == '"' {
            body.push('"');
            body.push('"');
            assert(body@ =~= seq!['"'] + (doubled(before) + seq!['"', '"']));
        } else {
            body.push(c);
            assert(body@ =~= seq!['"'] + doubled(before).push(c));
        }
        i += 1;
    }
    assert(chars@.take(n as int) =~= chars@);
    if special {
        body.push('"');
        assert(body@ =~= seq!['"'] + doubled(chars@) + seq!['"']);
        crate::text::to_string(body.as_slice())
    } else {
        s.to_owned()
    }
}

} // verus!
