use vstd::prelude::*;

pub mod strutil;
pub mod csv_core;
pub mod phone;
pub mod functions;
pub mod pipeline;

verus! {

/// Field delimiters the sniffer can choose, as byte values:
/// `;`, `|`, tab and `,`.
pub const SEP_SEMICOLON: u8 = 59;

pub const SEP_PIPE: u8 = 124;

pub const SEP_TAB: u8 = 9;

pub const SEP_COMMA: u8 = 44;

/// The separator policy as a mathematical function of the line's characters:
/// the first of `;`, `|`, tab, `,` present in the line, defaulting to `,`.
pub open spec fn spec_separator(line: Seq<char>) -> u8 {
    if line.contains(';') {
        SEP_SEMICOLON
    } else if line.contains('|') {
        SEP_PIPE
    } else if line.contains('\t') {
        SEP_TAB
    } else {
        SEP_COMMA
    }
}

/// Returns the delimiter byte chosen from the first line of raw tabular
/// text: `;` first, then `|`, then tab, then `,`, defaulting to `,`.
pub fn get_separator(line: &str) -> (r: u8)
    ensures
        r == spec_separator(line@),
{
    let n = line.unicode_len();
    let mut has_semi: bool = false;
    let mut has_pipe: bool = false;
    let mut has_tab: bool = false;
    let mut i: usize = 0;
    while i < n
        invariant
            n == line@.len(),
            i <= n,
            has_semi == (exists|k: int| 0 <= k < i && #[trigger] line@[k] == ';'),
            has_pipe == (exists|k: int| 0 <= k < i && #[trigger] line@[k] == '|'),
            has_tab == (exists|k: int| 0 <= k < i && #[trigger] line@[k] == '\t'),
        decreases n - i,
    {
        let c = line.get_char(i);
        if c == ';' {
            has_semi = true;
        }
        if c == '|' {
            has_pipe = true;
        }
        if c == '\t' {
            has_tab = true;
        }
        i = i + 1;
    }
    if has_semi {
        SEP_SEMICOLON
    } else if has_pipe {
        SEP_PIPE
    } else if has_tab {
        SEP_TAB
    } else {
        SEP_COMMA
    }
}

/// The character a sniffed separator byte stands for.
pub open spec fn spec_sep_char(sep: u8) -> char {
    if sep == SEP_SEMICOLON {
        ';'
    } else if sep == SEP_PIPE {
        '|'
    } else if sep == SEP_TAB {
        '\t'
    } else {
        ','
    }
}

/// Turns a sniffed separator byte back into the character it stands for;
/// any byte other than the four known separators is read as `,`.
pub fn sep_char(sep: u8) -> (r: char)
    ensures
        r == spec_sep_char(sep),
{
    if sep == SEP_SEMICOLON {
        ';'
    } else if sep == SEP_PIPE {
        '|'
    } else if sep == SEP_TAB {
        '\t'
    } else {
        ','
    }
}

/// Permissive content validation: collects every diagnostic instead of
/// failing on the first, flags missing data rows, and returns a sample
/// record beside the validity flag.
pub fn csv_content_reader(content: &str) -> (r: csv_core::FileData)
    ensures
        r.errors.deep_view() == csv_core::spec_content_errors(
            content@,
            csv_core::spec_content_sep(content@),
        ),
        r.valid == (csv_core::spec_content_errors(
            content@,
            csv_core::spec_content_sep(content@),
        ).len() == 0),
        csv_core::pairs_view(r.sample@) == csv_core::spec_sample(
            content@,
            csv_core::spec_content_sep(content@),
        ),
{
    csv_core::verify_content(content)
}

} // verus!
