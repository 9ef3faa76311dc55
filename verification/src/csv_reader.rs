//! How a table is to be read.

use vstd::prelude::*;
use crate::error::lowercase_of;
use crate::number::{decimal_text, usize_text};
use crate::text::{equals_str, push_chars, to_chars};

verus! {

/// The options of a reader: the delimiter, whether the table lacks a header
/// row, and the encoding, where it is not to be detected.
#[derive(Debug, Clone, Default)]
pub struct CsvOptions {
    pub delimiter: u8,
    pub no_header: bool,
    pub encoding: Option<String>,
}

impl CsvOptions {
    /// The options of a table with a header row, fields parted by commas,
    /// in an encoding to be detected.
    pub fn new() -> (r: CsvOptions)
        ensures
            r.delimiter == 44,
            !r.no_header,
            r.encoding is None,
    {
        CsvOptions { delimiter: 44, no_header: false, encoding: None }
    }

    pub fn with_delimiter(self, delimiter: u8) -> (r: CsvOptions)
        ensures
            r.delimiter == delimiter,
            r.no_header == self.no_header,
            r.encoding == self.encoding,
    {
        CsvOptions { delimiter, no_header: self.no_header, encoding: self.encoding }
    }

    pub fn with_no_header(self, no_header: bool) -> (r: CsvOptions)
        ensures
            r.delimiter == self.delimiter,
            r.no_header == no_header,
            r.encoding == self.encoding,
    {
        CsvOptions { delimiter: self.delimiter, no_header, encoding: self.encoding }
    }

    pub fn with_encoding(self, encoding: Option<String>) -> (r: CsvOptions)
        ensures
            r.delimiter == self.delimiter,
            r.no_header == self.no_header,
            r.encoding == encoding,
    {
        CsvOptions { delimiter: self.delimiter, no_header: self.no_header, encoding }
    }
}

/// The encodings that may be named, for help texts.
pub fn supported_encodings() -> (r: &'static str)
    ensures
        r@
            == "utf-8, shift_jis (cp932), euc-jp, iso-2022-jp, gbk (gb2312), gb18030, big5, euc-kr, latin1 (windows-1252), etc."@,
{
    "utf-8, shift_jis (cp932), euc-jp, iso-2022-jp, gbk (gb2312), gb18030, big5, euc-kr, latin1 (windows-1252), etc."
}

/// The names given to the columns of a table without a header row:
/// `col0`, `col1`, and so on.
pub fn generated_headers(count: usize) -> (r: Vec<String>)
    ensures
        r@.len() == count,
        forall|i: int| 0 <= i < count ==> (#[trigger] r@[i])@ == "col"@ + decimal_text(i as nat),
{
    let mut out: Vec<String> = Vec::new();
    let mut i: usize = 0;
    while i < count
        invariant
            i <= count,
            out@.len() == i,
            forall|k: int| 0 <= k < i ==> (#[trigger] out@[k])@ == "col"@ + decimal_text(k as nat),
        decreases count - i,
    {
        let mut name = "col".to_owned();
        push_chars(&mut name, usize_text(i).as_slice());
        out.push(name);
        i += 1;
    }
    out
}

/// A byte order mark.
#[derive(Debug, Clone, Copy, PartialEq, Eq, Structural)]
pub enum Bom {
    Utf8,
    Utf16Le,
    Utf16Be,
}

/// The byte order mark that a text begins with: `EF BB BF` for UTF-8,
/// `FF FE` for UTF-16 with the low byte first, `FE FF` for UTF-16 with the
/// high byte first.
pub open spec fn bom_of(bytes: Seq<u8>) -> Option<Bom> {
    if bytes.len() >= 3 && bytes[0] == 0xEF && bytes[1] == 0xBB && bytes[2] == 0xBF {
        Some(Bom::Utf8)
    } else if bytes.len() >= 2 && bytes[0] == 0xFF && bytes[1] == 0xFE {
        Some(Bom::Utf16Le)
    } else if bytes.len() >= 2 && bytes[0] == 0xFE && bytes[1] == 0xFF {
        Some(Bom::Utf16Be)
    } else {
        None
    }
}

/// The byte order mark that a text begins with.
pub fn detect_bom(bytes: &[u8]) -> (r: Option<Bom>)
    ensures
        r == bom_of(bytes@),
{
    let n: usize = bytes.len();
    if n >= 3 && bytes[0] == 0xEF && bytes[1] == 0xBB && bytes[2] == 0xBF {
        Some(Bom::Utf8)
    } else if n >= 2 && bytes[0] == 0xFF && bytes[1] == 0xFE {
        Some(Bom::Utf16Le)
    } else if n >= 2 && bytes[0] == 0xFE && bytes[1] == 0xFF {
        Some(Bom::Utf16Be)
    } else {
        None
    }
}

impl Bom {
    /// The number of bytes of the mark.
    pub fn len(&self) -> (n: usize)
        ensures
            n == match self {
                Bom::Utf8 => 3usize,
                _ => 2usize,
            },
    {
        match self {
            Bom::Utf8 => 3,
            _ => 2,
        }
    }

    /// The name of the encoding that the mark stands for.
    pub fn encoding(&self) -> (r: &'static str)
        ensures
            r@ == match self {
                Bom::Utf8 => "UTF-8"@,
                Bom::Utf16Le => "UTF-16LE"@,
                Bom::Utf16Be => "UTF-16BE"@,
            },
    {
        match self {
            Bom::Utf8 => "UTF-8",
            Bom::Utf16Le => "UTF-16LE",
            Bom::Utf16Be => "UTF-16BE",
        }
    }
}

/// `s` without hyphens and underscores.
pub open spec fn without_separators(s: Seq<char>) -> Seq<char>
    decreases s.len(),
{
    if s.len() == 0 {
        Seq::empty()
    } else if s.last() == '-' || s.last() == '_' {
        without_separators(s.drop_last())
    } else {
        without_separators(s.drop_last()).push(s.last())
    }
}

/// The encoding that a short name stands for. The name is taken in lower
/// case, without hyphens and underscores.
pub open spec fn encoding_of(name: Seq<char>) -> Option<Seq<char>> {
    let n = without_separators(lowercase_of(name));
    if n == "utf8"@ {
        Some("UTF-8"@)
    } else if n == "utf16le"@ || n == "utf16"@ {
        Some("UTF-16LE"@)
    } else if n == "utf16be"@ {
        Some("UTF-16BE"@)
    } else if n == "shiftjis"@ || n == "sjis"@ || n == "cp932"@ || n == "windows31j"@ {
        Some("Shift_JIS"@)
    } else if n == "eucjp"@ {
        Some("EUC-JP"@)
    } else if n == "iso2022jp"@ {
        Some("ISO-2022-JP"@)
    } else if n == "gbk"@ || n == "gb2312"@ || n == "cp936"@ {
        Some("GBK"@)
    } else if n == "gb18030"@ {
        Some("gb18030"@)
    } else if n == "big5"@ || n == "cp950"@ {
        Some("Big5"@)
    } else if n == "euckr"@ || n == "cp949"@ {
        Some("EUC-KR"@)
    } else if n == "latin1"@ || n == "iso88591"@ || n == "cp1252"@ || n == "windows1252"@ {
        Some("windows-1252"@)
    } else if n == "iso88592"@ {
        Some("ISO-8859-2"@)
    } else if n == "iso885915"@ {
        Some("ISO-8859-15"@)
    } else if n == "koi8r"@ {
        Some("KOI8-R"@)
    } else if n == "koi8u"@ {
        Some("KOI8-U"@)
    } else {
        None
    }
}

/// The text of an optional name.
pub open spec fn label_text(s: Option<&'static str>) -> Option<Seq<char>> {
    match s {
        Some(x) => Some(x@),
        None => None,
    }
}

fn strip_separators(s: &[char]) -> (r: Vec<char>)
    ensures
        r@ == without_separators(s@),
{
    let mut out: Vec<char> = Vec::new();
    let mut i: usize = 0;
    assert(s@.take(0) =~= Seq::empty());
    while i < s.len()
        invariant
            i <= s@.len(),
            out@ == without_separators(s@.take(i as int)),
        decreases s@.len() - i,
    {
        assert(s@.take(i + 1).drop_last() =~= s@.take(i as int));
        if s[i] != '-' && s[i] != '_' {
            out.push(s[i]);
        }
        i += 1;
    }
    assert(s@.take(s@.len() as int) =~= s@);
    out
}

/// The name of the encoding that a short name stands for, if it is one of
/// the short names.
pub fn encoding_label(name: &str) -> (r: Option<&'static str>)
    ensures
        label_text(r) == encoding_of(name@),
{
    let lowered = to_chars(name.to_lowercase().as_str());
    let stripped = strip_separators(lowered.as_slice());
    let n = stripped.as_slice();
    if equals_str(n, "utf8") {
        Some("UTF-8")
    } else if equals_str(n, "utf16le") || equals_str(n, "utf16") {
        Some("UTF-16LE")
    } else if equals_str(n, "utf16be") {
        Some("UTF-16BE")
    } else if equals_str(n, "shiftjis") || equals_str(n, "sjis") || equals_str(n, "cp932")
        || equals_str(n, "windows31j") {
        Some("Shift_JIS")
    } else if equals_str(n, "eucjp") {
        Some("EUC-JP")
    } else if equals_str(n, "iso2022jp") {
        Some("ISO-2022-JP")
    } else if equals_str(n, "gbk") || equals_str(n, "gb2312") || equals_str(n, "cp936") {
        Some("GBK")
    } else if equals_str(n, "gb18030") {
        Some("gb18030")
    } else if equals_str(n, "big5") || equals_str(n, "cp950") {
        Some("Big5")
    } else if equals_str(n, "euckr") || equals_str(n, "cp949") {
        Some("EUC-KR")
    } else if equals_str(n, "latin1") || equals_str(n, "iso88591") || equals_str(n, "cp1252")
        || equals_str(n, "windows1252") {
        Some("windows-1252")
    } else if equals_str(n, "iso88592") {
        Some("ISO-8859-2")
    } else if equals_str(n, "iso885915") {
        Some("ISO-8859-15")
    } else if equals_str(n, "koi8r") {
        Some("KOI8-R")
    } else if equals_str(n, "koi8u") {
        Some("KOI8-U")
    } else {
        None
    }
}

} // verus!
