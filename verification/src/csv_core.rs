use vstd::prelude::*;

use crate::strutil;

verus! {

/// A parsed delimited table: a header row (the placeholders the transformer
/// substitutes into) and the data rows.
pub struct CsvData {
    pub placeholders: Vec<String>,
    pub data: Vec<Vec<String>>,
}

/// What can go wrong while ingesting delimited text.
#[derive(Clone, Copy, PartialEq, Eq, Structural, Debug)]
pub enum CsvError {
    /// No first line could be read to sniff a separator from.
    SeparatorError,
    /// The header row could not be decoded.
    HeaderError,
    /// Some header cell is the empty string.
    EmptyHeaderError,
    /// Some header value occurs twice.
    DuplicateHeaderError,
    /// Some data row could not be decoded, or its field count differs
    /// from the header's.
    RowFormatError,
}

/// How a field ended: at a delimiter, at the end of a line, or at the end
/// of the whole input.
#[derive(Clone, Copy, PartialEq, Eq, Structural, Debug)]
pub enum Term {
    Delim,
    Newline,
    End,
}

/// Whether a field must be quoted when written: it holds the delimiter,
/// a quote, or a line break.
pub open spec fn needs_quote(f: Seq<char>, d: char) -> bool {
    f.contains(d) || f.contains('"') || f.contains('\n') || f.contains('\r')
}

/// A field's characters with every quote doubled, as quoting demands.
pub open spec fn quote_doubled(f: Seq<char>) -> Seq<char>
    decreases f.len(),
{
    if f.len() == 0 {
        Seq::empty()
    } else if f[0] == '"' {
        seq!['"', '"'] + quote_doubled(f.skip(1))
    } else {
        seq![f[0]] + quote_doubled(f.skip(1))
    }
}

/// One encoded field: quoted with doubled quotes when needed, verbatim
/// otherwise.
pub open spec fn enc_field(f: Seq<char>, d: char) -> Seq<char> {
    if needs_quote(f, d) {
        seq!['"'] + quote_doubled(f) + seq!['"']
    } else {
        f
    }
}

/// A record's fields joined by the delimiter, each encoded.
pub open spec fn enc_fields(r: Seq<Seq<char>>, d: char) -> Seq<char>
    decreases r.len(),
{
    if r.len() == 0 {
        Seq::empty()
    } else if r.len() == 1 {
        enc_field(r[0], d)
    } else {
        enc_field(r[0], d) + seq![d] + enc_fields(r.skip(1), d)
    }
}

/// One encoded record: a lone empty field is written as a quoted empty
/// string, so that its line is not read back as a blank one; any other
/// record is its joined fields.
pub open spec fn enc_record(r: Seq<Seq<char>>, d: char) -> Seq<char> {
    if r.len() == 1 && r[0].len() == 0 {
        seq!['"', '"']
    } else {
        enc_fields(r, d)
    }
}

/// A whole encoded table: each record followed by a newline.
pub open spec fn enc_table(t: Seq<Seq<Seq<char>>>, d: char) -> Seq<char>
    decreases t.len(),
{
    if t.len() == 0 {
        Seq::empty()
    } else {
        enc_record(t[0], d) + seq!['\n'] + enc_table(t.skip(1), d)
    }
}

pub proof fn lemma_quote_doubled_app(a: Seq<char>, b: Seq<char>)
    ensures
        quote_doubled(a + b) == quote_doubled(a) + quote_doubled(b),
    decreases a.len(),
{
    if a.len() == 0 {
        assert(a + b =~= b);
        assert(quote_doubled(a) + quote_doubled(b) =~= quote_doubled(b));
    } else {
        assert((a + b).skip(1) =~= a.skip(1) + b);
        lemma_quote_doubled_app(a.skip(1), b);
        assert((a + b)[0] == a[0]);
        if a[0] == '"' {
            assert(seq!['"', '"'] + (quote_doubled(a.skip(1)) + quote_doubled(b)) =~= (seq![
                '"',
                '"',
            ] + quote_doubled(a.skip(1))) + quote_doubled(b));
        } else {
            assert(seq![a[0]] + (quote_doubled(a.skip(1)) + quote_doubled(b)) =~= (seq![a[0]]
                + quote_doubled(a.skip(1))) + quote_doubled(b));
        }
    }
}

pub proof fn lemma_quote_doubled_singleton(c: char)
    ensures
        quote_doubled(seq![c]) == if c == '"' {
            seq!['"', '"']
        } else {
            seq![c]
        },
{
    assert(seq![c].skip(1) =~= Seq::<char>::empty());
    assert(quote_doubled(Seq::<char>::empty()) =~= Seq::<char>::empty());
    if c == '"' {
        assert(quote_doubled(seq![c]) =~= seq!['"', '"']);
    } else {
        assert(quote_doubled(seq![c]) =~= seq![c]);
    }
}

pub proof fn lemma_enc_fields_snoc(r: Seq<Seq<char>>, f: Seq<char>, d: char)
    ensures
        enc_fields(r.push(f), d) == if r.len() == 0 {
            enc_field(f, d)
        } else {
            enc_fields(r, d) + seq![d] + enc_field(f, d)
        },
    decreases r.len(),
{
    if r.len() == 0 {
        assert(r.push(f).len() == 1);
        assert(r.push(f)[0] == f);
    } else {
        assert(r.push(f)[0] == r[0]);
        assert(r.push(f).skip(1) =~= r.skip(1).push(f));
        lemma_enc_fields_snoc(r.skip(1), f, d);
        if r.len() == 1 {
            assert(r.skip(1).len() == 0);
            assert(enc_fields(r, d) == enc_field(r[0], d));
            assert(enc_field(r[0], d) + seq![d] + enc_field(f, d) =~= enc_field(r[0], d) + (seq![d]
                + enc_field(f, d)));
            assert(seq![d] + enc_field(f, d) =~= seq![d] + enc_fields(r.skip(1).push(f), d));
        } else {
            assert(enc_field(r[0], d) + seq![d] + (enc_fields(r.skip(1), d) + seq![d] + enc_field(
                f,
                d,
            )) =~= (enc_field(r[0], d) + seq![d] + enc_fields(r.skip(1), d)) + seq![d] + enc_field(
                f,
                d,
            ));
        }
    }
}

pub proof fn lemma_enc_table_snoc(t: Seq<Seq<Seq<char>>>, r: Seq<Seq<char>>, d: char)
    ensures
        enc_table(t.push(r), d) == enc_table(t, d) + enc_record(r, d) + seq!['\n'],
    decreases t.len(),
{
    if t.len() == 0 {
        assert(t.push(r)[0] == r);
        assert(t.push(r).skip(1) =~= Seq::<Seq<Seq<char>>>::empty());
        assert(enc_table(Seq::<Seq<Seq<char>>>::empty(), d) =~= Seq::<char>::empty());
        assert(enc_table(t.push(r), d) =~= enc_table(t, d) + enc_record(r, d) + seq!['\n']);
    } else {
        assert(t.push(r)[0] == t[0]);
        assert(t.push(r).skip(1) =~= t.skip(1).push(r));
        lemma_enc_table_snoc(t.skip(1), r, d);
        assert(enc_record(t[0], d) + seq!['\n'] + (enc_table(t.skip(1), d) + enc_record(r, d)
            + seq!['\n']) =~= (enc_record(t[0], d) + seq!['\n'] + enc_table(t.skip(1), d))
            + enc_record(r, d) + seq!['\n']);
    }
}

/// Appends one encoded field to `out`.
fn push_field(out: &mut Vec<char>, f: &Vec<char>, d: char)
    ensures
        final(out)@ == old(out)@ + enc_field(f@, d),
{
    let n = f.len();
    let mut has_special: bool = false;
    let mut i: usize = 0;
    while i < n
        invariant
            n == f@.len(),
            i <= n,
            has_special == (exists|k: int|
                0 <= k < i && (#[trigger] f@[k] == d || f@[k] == '"' || f@[k] == '\n' || f@[k]
                    == '\r')),
        decreases n - i,
    {
        let c = f[i];
        if c == d || c == '"' || c == '\n' || c == '\r' {
            has_special = true;
        }
        i = i + 1;
    }
    proof {
        assert(has_special == needs_quote(f@, d));
    }
    if !has_special {
        out.extend_from_slice(f.as_slice());
    } else {
        out.push('"');
        let ghost entry = out@;
        let mut i: usize = 0;
        while i < n
            invariant
                n == f@.len(),
                i <= n,
                out@ == entry + quote_doubled(f@.subrange(0, i as int)),
            decreases n - i,
        {
            let c = f[i];
            proof {
                assert(f@.subrange(0, i + 1) =~= f@.subrange(0, i as int) + seq![f@[i as int]]);
                lemma_quote_doubled_app(f@.subrange(0, i as int), seq![f@[i as int]]);
                lemma_quote_doubled_singleton(f@[i as int]);
            }
            if c == '"' {
                out.push('"');
                out.push('"');
            } else {
                out.push(c);
            }
            proof {
                assert(out@ =~= entry + quote_doubled(f@.subrange(0, i + 1)));
            }
            i = i + 1;
        }
        out.push('"');
        proof {
            assert(f@.subrange(0, n as int) =~= f@);
            assert(out@ =~= old(out)@ + enc_field(f@, d));
        }
    }
}

/// Appends one encoded record to `out`.
fn push_record(out: &mut Vec<char>, rec: &Vec<String>, d: char)
    ensures
        final(out)@ == old(out)@ + enc_record(rec.deep_view(), d),
{
    let n = rec.len();
    if n == 1 && rec[0].as_str().is_empty() {
        out.push('"');
        out.push('"');
        proof {
            assert(rec.deep_view()[0] == rec@[0]@);
            assert(out@ =~= old(out)@ + enc_record(rec.deep_view(), d));
        }
        return ;
    }
    let mut i: usize = 0;
    while i < n
        invariant
            n == rec@.len(),
            i <= n,
            out@ == old(out)@ + enc_fields(rec.deep_view().subrange(0, i as int), d),
        decreases n - i,
    {
        if i > 0 {
            out.push(d);
        }
        let chars = strutil::to_chars(rec[i].as_str());
        push_field(out, &chars, d);
        proof {
            let dv = rec.deep_view();
            assert(dv.subrange(0, i + 1) =~= dv.subrange(0, i as int).push(dv[i as int]));
            lemma_enc_fields_snoc(dv.subrange(0, i as int), dv[i as int], d);
            assert(chars@ == dv[i as int]);
            assert(out@ =~= old(out)@ + enc_fields(dv.subrange(0, i + 1), d));
        }
        i = i + 1;
    }
    proof {
        assert(rec.deep_view().subrange(0, n as int) =~= rec.deep_view());
        if rec.deep_view().len() == 1 {
            assert(rec.deep_view()[0] == rec@[0]@);
        }
        assert(enc_record(rec.deep_view(), d) == enc_fields(rec.deep_view(), d));
    }
}

/// Serializes a table (header row included) to delimited text with the
/// fixed output delimiter `;`, quoting fields that hold the delimiter, a
/// quote or a line break, and doubling embedded quotes. Total: every
/// table serializes, and the result is always `Ok`.
pub fn to_text(data: Vec<Vec<String>>) -> (r: Result<String, String>)
    ensures
        (r matches Ok(s) && s@ == enc_table(data.deep_view(), ';')),
{
    let mut out: Vec<char> = Vec::new();
    let n = data.len();
    let mut i: usize = 0;
    while i < n
        invariant
            n == data@.len(),
            i <= n,
            out@ == enc_table(data.deep_view().subrange(0, i as int), ';'),
        decreases n - i,
    {
        push_record(&mut out, &data[i], ';');
        out.push('\n');
        proof {
            let dv = data.deep_view();
            assert(dv.subrange(0, i + 1) =~= dv.subrange(0, i as int).push(dv[i as int]));
            lemma_enc_table_snoc(dv.subrange(0, i as int), dv[i as int], ';');
            assert(data[i as int].deep_view() == dv[i as int]);
            assert(out@ =~= enc_table(dv.subrange(0, i + 1), ';'));
        }
        i = i + 1;
    }
    proof {
        assert(data.deep_view().subrange(0, n as int) =~= data.deep_view());
    }
    Ok(strutil::chars_to_string(&out))
}

/// Whether some header cell is empty.
pub open spec fn has_empty_header(h: Seq<Seq<char>>) -> bool {
    exists|i: int| 0 <= i < h.len() && (#[trigger] h[i]).len() == 0
}

/// Whether some header value repeats.
pub open spec fn has_dup_header(h: Seq<Seq<char>>) -> bool {
    exists|i: int, j: int| 0 <= i < j < h.len() && #[trigger] h[i] == #[trigger] h[j]
}

/// The header validation policy: an empty cell is reported first, then a
/// duplicate, case-sensitively and exactly.
pub open spec fn spec_check_header(h: Seq<Seq<char>>) -> Result<(), CsvError> {
    if has_empty_header(h) {
        Err(CsvError::EmptyHeaderError)
    } else if has_dup_header(h) {
        Err(CsvError::DuplicateHeaderError)
    } else {
        Ok(())
    }
}

/// Validates a header row: every cell non-empty and all cells distinct.
pub fn check_header(header: &Vec<String>) -> (r: Result<(), CsvError>)
    ensures
        r == spec_check_header(header.deep_view()),
{
    let n = header.len();
    let mut i: usize = 0;
    while i < n
        invariant
            n == header@.len(),
            i <= n,
            forall|k: int| 0 <= k < i ==> (#[trigger] header.deep_view()[k]).len() != 0,
        decreases n - i,
    {
        if header[i].as_str().is_empty() {
            proof {
                assert(header.deep_view()[i as int].len() == 0);
            }
            return Err(CsvError::EmptyHeaderError);
        }
        i = i + 1;
    }
    let mut i: usize = 0;
    while i < n
        invariant
            n == header@.len(),
            i <= n,
            !has_empty_header(header.deep_view()),
            forall|p: int, q: int|
                0 <= p < q < i ==> #[trigger] header.deep_view()[p] != #[trigger] header.deep_view(
                )[q],
        decreases n - i,
    {
        let mut j: usize = 0;
        while j < i
            invariant
                n == header@.len(),
                j <= i < n,
                !has_empty_header(header.deep_view()),
                forall|p: int|
                    0 <= p < j ==> #[trigger] header.deep_view()[p] != header.deep_view()[i as int],
            decreases i - j,
        {
            if header[j] == header[i] {
                proof {
                    assert(header.deep_view()[j as int] == header.deep_view()[i as int]);
                }
                return Err(CsvError::DuplicateHeaderError);
            }
            j = j + 1;
        }
        i = i + 1;
    }
    Ok(())
}


/// One field parsed from the head of `s` without an opening quote: the
/// field's characters, how it ended, and the rest of the input after the
/// terminator. A newline, a carriage return, or the pair ends the line.
/// Fails on a stray quote inside the field.
pub open spec fn p_unq(s: Seq<char>, d: char) -> Option<(Seq<char>, Term, Seq<char>)>
    decreases s.len(),
{
    if s.len() == 0 {
        Some((Seq::empty(), Term::End, Seq::empty()))
    } else if s[0] == d {
        Some((Seq::empty(), Term::Delim, s.skip(1)))
    } else if s[0] == '\n' {
        Some((Seq::empty(), Term::Newline, s.skip(1)))
    } else if s[0] == '\r' {
        if s.len() > 1 && s[1] == '\n' {
            Some((Seq::empty(), Term::Newline, s.skip(2)))
        } else {
            Some((Seq::empty(), Term::Newline, s.skip(1)))
        }
    } else if s[0] == '"' {
        None
    } else {
        match p_unq(s.skip(1), d) {
            None => None,
            Some(t) => Some((seq![s[0]] + t.0, t.1, t.2)),
        }
    }
}

/// The inside of a quoted field parsed from the head of `s` (the opening
/// quote already consumed): doubled quotes collapse, a lone quote closes
/// the field and must be followed by the delimiter, a line break (a
/// newline, a carriage return, or the pair) or the end.
pub open spec fn p_q(s: Seq<char>, d: char) -> Option<(Seq<char>, Term, Seq<char>)>
    decreases s.len(),
{
    if s.len() == 0 {
        None
    } else if s[0] == '"' {
        if s.len() == 1 {
            Some((Seq::empty(), Term::End, Seq::empty()))
        } else if s[1] == '"' {
            match p_q(s.skip(2), d) {
                None => None,
                Some(t) => Some((seq!['"'] + t.0, t.1, t.2)),
            }
        } else if s[1] == d {
            Some((Seq::empty(), Term::Delim, s.skip(2)))
        } else if s[1] == '\n' {
            Some((Seq::empty(), Term::Newline, s.skip(2)))
        } else if s[1] == '\r' {
            if s.len() > 2 && s[2] == '\n' {
                Some((Seq::empty(), Term::Newline, s.skip(3)))
            } else {
                Some((Seq::empty(), Term::Newline, s.skip(2)))
            }
        } else {
            None
        }
    } else {
        match p_q(s.skip(1), d) {
            None => None,
            Some(t) => Some((seq![s[0]] + t.0, t.1, t.2)),
        }
    }
}

/// One field parsed from the head of `s`: quoted if it opens with a
/// quote, unquoted otherwise.
pub open spec fn p_field(s: Seq<char>, d: char) -> Option<(Seq<char>, Term, Seq<char>)> {
    if s.len() > 0 && s[0] == '"' {
        p_q(s.skip(1), d)
    } else {
        p_unq(s, d)
    }
}

pub proof fn lemma_p_unq_len(s: Seq<char>, d: char)
    ensures
        match p_unq(s, d) {
            None => true,
            Some((f, t, r)) => r.len() <= s.len() && (t == Term::End ==> r.len() == 0) && (t
                != Term::End ==> r.len() < s.len()),
        },
    decreases s.len(),
{
    if s.len() == 0 {
    } else if s[0] == d || s[0] == '\n' || s[0] == '\r' || s[0] == '"' {
    } else {
        lemma_p_unq_len(s.skip(1), d);
    }
}

pub proof fn lemma_p_q_len(s: Seq<char>, d: char)
    ensures
        match p_q(s, d) {
            None => true,
            Some((f, t, r)) => r.len() < s.len() && (t == Term::End ==> r.len() == 0),
        },
    decreases s.len(),
{
    if s.len() == 0 {
    } else if s[0] == '"' {
        if s.len() > 1 && s[1] == '"' {
            lemma_p_q_len(s.skip(2), d);
        }
    } else {
        lemma_p_q_len(s.skip(1), d);
    }
}

pub proof fn lemma_p_field_len(s: Seq<char>, d: char)
    ensures
        match p_field(s, d) {
            None => true,
            Some((f, t, r)) => r.len() <= s.len() && (t == Term::End ==> r.len() == 0) && (t
                != Term::End ==> r.len() < s.len()),
        },
{
    if s.len() > 0 && s[0] == '"' {
        lemma_p_q_len(s.skip(1), d);
    } else {
        lemma_p_unq_len(s, d);
    }
}

/// One record parsed from the head of `s`: at least one field, fields
/// separated by the delimiter, ended by a newline or the end of input.
pub open spec fn p_record(s: Seq<char>, d: char) -> Option<(Seq<Seq<char>>, Seq<char>)>
    decreases s.len(),
{
    match p_field(s, d) {
        None => None,
        Some(ftr) => {
            if ftr.1 == Term::Delim {
                proof {
                    lemma_p_field_len(s, d);
                }
                match p_record(ftr.2, d) {
                    None => None,
                    Some(rr) => Some((seq![ftr.0] + rr.0, rr.1)),
                }
            } else {
                Some((seq![ftr.0], ftr.2))
            }
        },
    }
}

pub proof fn lemma_p_record_len(s: Seq<char>, d: char)
    ensures
        match p_record(s, d) {
            None => true,
            Some((rec, rest)) => rest.len() <= s.len() && (s.len() > 0 ==> rest.len() < s.len())
                && rec.len() >= 1,
        },
    decreases s.len(),
{
    lemma_p_field_len(s, d);
    match p_field(s, d) {
        None => {},
        Some((f, t, r)) => {
            if t == Term::Delim {
                lemma_p_record_len(r, d);
            }
        },
    }
}

/// The input with every leading blank line removed: a newline, a carriage
/// return, or the pair consume one empty record each.
pub open spec fn skip_blank_lines(s: Seq<char>) -> Seq<char>
    decreases s.len(),
{
    if s.len() == 0 {
        s
    } else if s[0] == '\n' {
        skip_blank_lines(s.skip(1))
    } else if s[0] == '\r' {
        if s.len() > 1 && s[1] == '\n' {
            skip_blank_lines(s.skip(2))
        } else {
            skip_blank_lines(s.skip(1))
        }
    } else {
        s
    }
}

pub proof fn lemma_skip_blank_lines(s: Seq<char>)
    ensures
        skip_blank_lines(s).len() <= s.len(),
        skip_blank_lines(s).len() == 0 || (skip_blank_lines(s)[0] != '\n' && skip_blank_lines(s)[0]
            != '\r'),
        skip_blank_lines(skip_blank_lines(s)) == skip_blank_lines(s),
    decreases s.len(),
{
    if s.len() == 0 {
    } else if s[0] == '\n' {
        lemma_skip_blank_lines(s.skip(1));
    } else if s[0] == '\r' {
        if s.len() > 1 && s[1] == '\n' {
            lemma_skip_blank_lines(s.skip(2));
        } else {
            lemma_skip_blank_lines(s.skip(1));
        }
    }
}

/// A whole table parsed from `s`: records until the input is exhausted,
/// with blank lines between, before and after records skipped.
pub open spec fn p_table(s: Seq<char>, d: char) -> Option<Seq<Seq<Seq<char>>>>
    decreases s.len(),
{
    let s2 = skip_blank_lines(s);
    if s2.len() == 0 {
        Some(Seq::empty())
    } else {
        proof {
            lemma_skip_blank_lines(s);
            lemma_p_record_len(s2, d);
        }
        match p_record(s2, d) {
            None => None,
            Some(rr) => match p_table(rr.1, d) {
                None => None,
                Some(t) => Some(seq![rr.0] + t),
            },
        }
    }
}

pub proof fn lemma_p_table_skip(s: Seq<char>, d: char)
    ensures
        p_table(s, d) == p_table(skip_blank_lines(s), d),
{
    lemma_skip_blank_lines(s);
}

/// Whether every row has exactly `w` fields.
pub open spec fn rows_ok(rows: Seq<Seq<Seq<char>>>, w: int) -> bool {
    forall|i: int| 0 <= i < rows.len() ==> (#[trigger] rows[i]).len() == w
}

/// The whole strict ingestion policy: after any leading blank lines, the
/// first record is the header; an unreadable header, an empty or
/// duplicate header cell, an undecodable data record and a field-count
/// mismatch are each rejected with their error, in that order of checks.
pub open spec fn spec_ingest(s: Seq<char>, d: char) -> Result<
    (Seq<Seq<char>>, Seq<Seq<Seq<char>>>),
    CsvError,
> {
    match p_record(skip_blank_lines(s), d) {
        None => Err(CsvError::HeaderError),
        Some((hdr, rest)) => {
            if has_empty_header(hdr) {
                Err(CsvError::EmptyHeaderError)
            } else if has_dup_header(hdr) {
                Err(CsvError::DuplicateHeaderError)
            } else {
                match p_table(rest, d) {
                    None => Err(CsvError::RowFormatError),
                    Some(rows) => {
                        if rows_ok(rows, hdr.len() as int) {
                            Ok((hdr, rows))
                        } else {
                            Err(CsvError::RowFormatError)
                        }
                    },
                }
            }
        },
    }
}

fn take_unquoted(s: &Vec<char>, i: usize, d: char) -> (r: Option<(Vec<char>, Term, usize)>)
    requires
        i <= s.len(),
    ensures
        match r {
            None => p_unq(s@.skip(i as int), d) is None,
            Some((f, t, j)) => i <= j <= s@.len() && p_unq(s@.skip(i as int), d) == Some(
                (f@, t, s@.skip(j as int)),
            ),
        },
    decreases s.len() - i,
{
    if i == s.len() {
        proof {
            assert(s@.skip(i as int) =~= Seq::<char>::empty());
            assert(s@.skip(s@.len() as int) =~= Seq::<char>::empty());
        }
        Some((Vec::new(), Term::End, i))
    } else {
        let c = s[i];
        proof {
            assert(s@.skip(i as int)[0] == s@[i as int]);
            assert(s@.skip(i as int).skip(1) =~= s@.skip(i + 1));
            if i + 2 <= s@.len() {
                assert(s@.skip(i as int)[1] == s@[i + 1]);
                assert(s@.skip(i as int).skip(2) =~= s@.skip(i + 2));
            }
        }
        if c == d {
            Some((Vec::new(), Term::Delim, i + 1))
        } else if c == '\n' {
            Some((Vec::new(), Term::Newline, i + 1))
        } else if c == '\r' {
            if i + 1 < s.len() && s[i + 1] == '\n' {
                Some((Vec::new(), Term::Newline, i + 2))
            } else {
                Some((Vec::new(), Term::Newline, i + 1))
            }
        } else if c == '"' {
            None
        } else {
            match take_unquoted(s, i + 1, d) {
                None => None,
                Some((mut f, t, j)) => {
                    let ghost fv = f@;
                    f.insert(0, c);
                    proof {
                        assert(f@ =~= seq![c] + fv);
                    }
                    Some((f, t, j))
                },
            }
        }
    }
}


fn take_quoted(s: &Vec<char>, i: usize, d: char) -> (r: Option<(Vec<char>, Term, usize)>)
    requires
        i <= s.len(),
    ensures
        match r {
            None => p_q(s@.skip(i as int), d) is None,
            Some((f, t, j)) => i <= j <= s@.len() && p_q(s@.skip(i as int), d) == Some(
                (f@, t, s@.skip(j as int)),
            ),
        },
    decreases s.len() - i,
{
    if i == s.len() {
        proof {
            assert(s@.skip(i as int) =~= Seq::<char>::empty());
        }
        None
    } else {
        let c = s[i];
        proof {
            assert(s@.skip(i as int)[0] == s@[i as int]);
            assert(s@.skip(i as int).skip(1) =~= s@.skip(i + 1));
            if i + 2 <= s@.len() {
                assert(s@.skip(i as int).skip(2) =~= s@.skip(i + 2));
            }
        }
        if c == '"' {
            if i + 1 == s.len() {
                proof {
                    assert(s@.skip(s@.len() as int) =~= Seq::<char>::empty());
                }
                Some((Vec::new(), Term::End, i + 1))
            } else {
                let c2 = s[i + 1];
                proof {
                    assert(s@.skip(i as int)[1] == s@[i + 1]);
                }
                if c2 == '"' {
                    match take_quoted(s, i + 2, d) {
                        None => None,
                        Some((mut f, t, j)) => {
                            let ghost fv = f@;
                            f.insert(0, '"');
                            proof {
                                assert(f@ =~= seq!['"'] + fv);
                            }
                            Some((f, t, j))
                        },
                    }
                } else if c2 == d {
                    Some((Vec::new(), Term::Delim, i + 2))
                } else if c2 == '\n' {
                    Some((Vec::new(), Term::Newline, i + 2))
                } else if c2 == '\r' {
                    proof {
                        if i + 3 <= s@.len() {
                            assert(s@.skip(i as int)[2] == s@[i + 2]);
                            assert(s@.skip(i as int).skip(3) =~= s@.skip(i + 3));
                        }
                    }
                    if i + 2 < s.len() && s[i + 2] == '\n' {
                        Some((Vec::new(), Term::Newline, i + 3))
                    } else {
                        Some((Vec::new(), Term::Newline, i + 2))
                    }
                } else {
                    None
                }
            }
        } else {
            match take_quoted(s, i + 1, d) {
                None => None,
                Some((mut f, t, j)) => {
                    let ghost fv = f@;
                    f.insert(0, c);
                    proof {
                        assert(f@ =~= seq![c] + fv);
                    }
                    Some((f, t, j))
                },
            }
        }
    }
}

fn take_field(s: &Vec<char>, i: usize, d: char) -> (r: Option<(Vec<char>, Term, usize)>)
    requires
        i <= s.len(),
    ensures
        match r {
            None => p_field(s@.skip(i as int), d) is None,
            Some((f, t, j)) => i <= j <= s@.len() && p_field(s@.skip(i as int), d) == Some(
                (f@, t, s@.skip(j as int)),
            ),
        },
{
    proof {
        if i < s.len() {
            assert(s@.skip(i as int)[0] == s@[i as int]);
            assert(s@.skip(i as int).skip(1) =~= s@.skip(i + 1));
        }
    }
    if i < s.len() && s[i] == '"' {
        take_quoted(s, i + 1, d)
    } else {
        take_unquoted(s, i, d)
    }
}

/// Converts a parsed record's fields into strings, keeping the characters.
fn record_strings(rec: &Vec<Vec<char>>) -> (r: Vec<String>)
    ensures
        r.deep_view() == rec.deep_view(),
{
    let n = rec.len();
    let mut out: Vec<String> = Vec::new();
    let mut i: usize = 0;
    while i < n
        invariant
            n == rec@.len(),
            i <= n,
            out@.len() == i,
            forall|k: int| 0 <= k < i ==> #[trigger] out.deep_view()[k] == rec.deep_view()[k],
        decreases n - i,
    {
        let ghost prev = out@;
        let ghost prevdv = out.deep_view();
        out.push(strutil::chars_to_string(&rec[i]));
        proof {
            assert forall|k: int| 0 <= k < i + 1 implies #[trigger] out.deep_view()[k]
                == rec.deep_view()[k] by {
                assert(out.deep_view()[k] == out@[k]@);
                if k == i {
                    assert(out@[k]@ == rec@[k]@);
                    assert(rec.deep_view()[k] == rec@[k].deep_view());
                    assert(rec@[k].deep_view() =~= rec@[k]@);
                } else {
                    assert(out@[k] == prev[k]);
                    assert(prevdv[k] == prev[k]@);
                }
            }
        }
        i = i + 1;
    }
    proof {
        assert(out.deep_view() =~= rec.deep_view());
    }
    out
}

fn take_record(s: &Vec<char>, i: usize, d: char) -> (r: Option<(Vec<Vec<char>>, usize)>)
    requires
        i <= s.len(),
    ensures
        match r {
            None => p_record(s@.skip(i as int), d) is None,
            Some((rec, j)) => i <= j <= s@.len() && p_record(s@.skip(i as int), d) == Some(
                (rec.deep_view(), s@.skip(j as int)),
            ),
        },
    decreases s.len() - i,
{
    match take_field(s, i, d) {
        None => None,
        Some((f, t, j)) => {
            if t == Term::Delim {
                proof {
                    lemma_p_field_len(s@.skip(i as int), d);
                }
                match take_record(s, j, d) {
                    None => None,
                    Some((mut rec, j2)) => {
                        let ghost rv = rec.deep_view();
                        let ghost rvv = rec@;
                        let ghost fv = f@;
                        rec.insert(0, f);
                        proof {
                            assert forall|k: int| 0 <= k < rec@.len() implies rec.deep_view()[k]
                                == (seq![fv] + rv)[k] by {
                                assert(rec.deep_view()[k] == rec@[k].deep_view());
                                if k == 0 {
                                    assert(rec@[0].deep_view() =~= fv);
                                } else {
                                    assert(rec@[k] == rvv[k - 1]);
                                    assert(rv[k - 1] == rvv[k - 1].deep_view());
                                }
                            }
                            assert(rec.deep_view() =~= seq![fv] + rv);
                        }
                        Some((rec, j2))
                    },
                }
            } else {
                let mut rec: Vec<Vec<char>> = Vec::new();
                let ghost fv = f@;
                rec.push(f);
                proof {
                    assert(rec@[0].deep_view() =~= fv);
                    assert(rec.deep_view() =~= seq![fv]);
                }
                Some((rec, j))
            }
        },
    }
}

/// Advances past blank lines: every leading newline, carriage return, or
/// carriage-return-newline pair from position `i` on.
#[verifier::loop_isolation(false)]
fn skip_blanks(s: &Vec<char>, i: usize) -> (j: usize)
    requires
        i <= s.len(),
    ensures
        i <= j <= s@.len(),
        s@.skip(j as int) == skip_blank_lines(s@.skip(i as int)),
        skip_blank_lines(s@.skip(j as int)) == s@.skip(j as int),
{
    let n = s.len();
    let mut j: usize = i;
    proof {
        assert(skip_blank_lines(s@.skip(i as int)) == skip_blank_lines(s@.skip(j as int)));
    }
    while j < n && (s[j] == '\n' || s[j] == '\r')
        invariant
            i <= j <= n,
            n == s@.len(),
            skip_blank_lines(s@.skip(i as int)) == skip_blank_lines(s@.skip(j as int)),
        decreases n - j,
    {
        proof {
            assert(s@.skip(j as int)[0] == s@[j as int]);
            assert(s@.skip(j as int).skip(1) =~= s@.skip(j + 1));
            if j + 2 <= n {
                assert(s@.skip(j as int)[1] == s@[j + 1]);
                assert(s@.skip(j as int).skip(2) =~= s@.skip(j + 2));
            }
        }
        if s[j] == '\r' && j + 1 < n && s[j + 1] == '\n' {
            j = j + 2;
        } else {
            j = j + 1;
        }
    }
    proof {
        if j == n {
            assert(s@.skip(j as int) =~= Seq::<char>::empty());
        } else {
            assert(s@.skip(j as int)[0] == s@[j as int]);
        }
        assert(skip_blank_lines(s@.skip(j as int)) == s@.skip(j as int));
    }
    j
}

/// Parses delimited text into a header row plus data rows under the given
/// separator byte, enforcing non-empty unique headers and a uniform field
/// count, exactly as [`spec_ingest`] states: blank lines anywhere in the
/// text are skipped.
#[verifier::loop_isolation(false)]
pub fn create_csv_data(content: &str, separator: u8) -> (r: Result<CsvData, CsvError>)
    ensures
        match spec_ingest(content@, crate::spec_sep_char(separator)) {
            Ok(hr) => r matches Ok(csv) && csv.placeholders.deep_view() == hr.0
                && csv.data.deep_view() == hr.1,
            Err(e) => r == Result::<CsvData, CsvError>::Err(e),
        },
{
    let d = crate::sep_char(separator);
    let chars = strutil::to_chars(content);
    proof {
        assert(chars@.skip(0) =~= content@);
    }
    let h0 = skip_blanks(&chars, 0);
    proof {
        assert(chars@.skip(h0 as int) == skip_blank_lines(content@));
    }
    match take_record(&chars, h0, d) {
        None => Err(CsvError::HeaderError),
        Some((hrec, j0)) => {
            let placeholders = record_strings(&hrec);
            match check_header(&placeholders) {
                Err(e) => Err(e),
                Ok(()) => {
                    let ghost rest0 = chars@.skip(j0 as int);
                    let n = chars.len();
                    let mut data: Vec<Vec<String>> = Vec::new();
                    let mut j: usize = skip_blanks(&chars, j0);
                    let w = placeholders.len();
                    proof {
                        lemma_p_table_skip(rest0, d);
                        assert(p_table(rest0, d) == p_table(chars@.skip(j as int), d));
                        assert(data.deep_view() + p_table(rest0, d)->Some_0 =~= p_table(
                            rest0,
                            d,
                        )->Some_0) by {
                            if p_table(rest0, d) is Some {
                            }
                        }
                    }
                    while j < n
                        invariant
                            j0 <= j <= n,
                            n == chars@.len(),
                            w == placeholders@.len(),
                            rest0 == chars@.skip(j0 as int),
                            rows_ok(data.deep_view(), w as int),
                            skip_blank_lines(chars@.skip(j as int)) == chars@.skip(j as int),
                            p_table(rest0, d) == (match p_table(chars@.skip(j as int), d) {
                                None => None::<Seq<Seq<Seq<char>>>>,
                                Some(t) => Some(data.deep_view() + t),
                            }),
                        decreases n - j,
                    {
                        proof {
                            lemma_p_record_len(chars@.skip(j as int), d);
                        }
                        match take_record(&chars, j, d) {
                            None => {
                                proof {
                                    assert(p_table(chars@.skip(j as int), d) is None);
                                }
                                return Err(CsvError::RowFormatError);
                            },
                            Some((rrec, j2)) => {
                                proof {
                                    assert(p_table(chars@.skip(j as int), d) == (match p_table(
                                        chars@.skip(j2 as int),
                                        d,
                                    ) {
                                        None => None::<Seq<Seq<Seq<char>>>>,
                                        Some(t) => Some(seq![rrec.deep_view()] + t),
                                    }));
                                }
                                if rrec.len() != w {
                                    proof {
                                        if p_table(chars@.skip(j2 as int), d) is Some {
                                            let t = p_table(chars@.skip(j2 as int), d)->Some_0;
                                            let rows = data.deep_view() + (seq![rrec.deep_view()]
                                                + t);
                                            assert(rows[data.deep_view().len() as int]
                                                == rrec.deep_view());
                                            assert(rrec.deep_view().len() == rrec@.len());
                                            assert(!rows_ok(rows, w as int));
                                        }
                                    }
                                    return Err(CsvError::RowFormatError);
                                }
                                let row = record_strings(&rrec);
                                let ghost dv = data.deep_view();
                                let ghost dvv = data@;
                                data.push(row);
                                proof {
                                    assert forall|k: int| 0 <= k < dv.len() + 1 implies #[trigger] data.deep_view()[k]
                                        == dv.push(rrec.deep_view())[k] by {
                                        assert(data.deep_view()[k] == data@[k].deep_view());
                                        if k < dv.len() {
                                            assert(data@[k] == dvv[k]);
                                            assert(dv[k] == dvv[k].deep_view());
                                        } else {
                                            assert(data@[k] == row);
                                        }
                                    }
                                    assert(data.deep_view() =~= dv.push(rrec.deep_view()));
                                    assert(rows_ok(data.deep_view(), w as int));
                                    if p_table(chars@.skip(j2 as int), d) is Some {
                                        let t = p_table(chars@.skip(j2 as int), d)->Some_0;
                                        assert(dv + (seq![rrec.deep_view()] + t) =~= dv.push(
                                            rrec.deep_view()) + t);
                                    }
                                }
                                let jn = skip_blanks(&chars, j2);
                                proof {
                                    lemma_p_table_skip(chars@.skip(j2 as int), d);
                                    assert(p_table(chars@.skip(j2 as int), d) == p_table(
                                        chars@.skip(jn as int),
                                        d,
                                    ));
                                }
                                j = jn;
                            },
                        }
                    }
                    proof {
                        assert(chars@.skip(n as int) =~= Seq::<char>::empty());
                        assert(data.deep_view() + Seq::<Seq<Seq<char>>>::empty() =~= (
                        data.deep_view()));
                    }
                    Ok(CsvData { placeholders, data })
                },
            }
        },
    }
}


/// What parsing one encoded field must give back: the field itself, ended
/// by whatever the following text begins with.
pub open spec fn rt_result(f: Seq<char>, tail: Seq<char>, d: char) -> Option<
    (Seq<char>, Term, Seq<char>),
> {
    if tail.len() == 0 {
        Some((f, Term::End, Seq::<char>::empty()))
    } else if tail[0] == d {
        Some((f, Term::Delim, tail.skip(1)))
    } else {
        Some((f, Term::Newline, tail.skip(1)))
    }
}

proof fn lemma_rt_unq(f: Seq<char>, tail: Seq<char>, d: char)
    requires
        !f.contains(d),
        !f.contains('\n'),
        !f.contains('\r'),
        !f.contains('"'),
        tail.len() == 0 || tail[0] == d || tail[0] == '\n',
    ensures
        p_unq(f + tail, d) == rt_result(f, tail, d),
    decreases f.len(),
{
    if f.len() == 0 {
        assert(f + tail =~= tail);
        if tail.len() == 0 {
            assert((f + tail).len() == 0);
        }
    } else {
        assert((f + tail)[0] == f[0]);
        assert(f[0] != d && f[0] != '\n' && f[0] != '\r' && f[0] != '"');
        assert((f + tail).skip(1) =~= f.skip(1) + tail);
        assert(!f.skip(1).contains('\r')) by {
            if f.skip(1).contains('\r') {
                let k = choose|k: int| 0 <= k < f.skip(1).len() && f.skip(1)[k] == '\r';
                assert(f[k + 1] == '\r');
            }
        }
        assert(!f.skip(1).contains(d)) by {
            if f.skip(1).contains(d) {
                let k = choose|k: int| 0 <= k < f.skip(1).len() && f.skip(1)[k] == d;
                assert(f[k + 1] == d);
            }
        }
        assert(!f.skip(1).contains('\n')) by {
            if f.skip(1).contains('\n') {
                let k = choose|k: int| 0 <= k < f.skip(1).len() && f.skip(1)[k] == '\n';
                assert(f[k + 1] == '\n');
            }
        }
        assert(!f.skip(1).contains('"')) by {
            if f.skip(1).contains('"') {
                let k = choose|k: int| 0 <= k < f.skip(1).len() && f.skip(1)[k] == '"';
                assert(f[k + 1] == '"');
            }
        }
        lemma_rt_unq(f.skip(1), tail, d);
        assert(seq![f[0]] + f.skip(1) =~= f);
    }
}

proof fn lemma_rt_q(f: Seq<char>, tail: Seq<char>, d: char)
    requires
        d != '"',
        d != '\n',
        tail.len() == 0 || tail[0] == d || tail[0] == '\n',
    ensures
        p_q(quote_doubled(f) + seq!['"'] + tail, d) == rt_result(f, tail, d),
    decreases f.len(),
{
    let s = quote_doubled(f) + seq!['"'] + tail;
    if f.len() == 0 {
        assert(s =~= seq!['"'] + tail);
        assert(s[0] == '"');
        if tail.len() == 0 {
            assert(s.len() == 1);
        } else {
            assert(s[1] == tail[0]);
            assert(s.skip(2) =~= tail.skip(1));
        }
    } else if f[0] == '"' {
        assert(quote_doubled(f) == seq!['"', '"'] + quote_doubled(f.skip(1)));
        assert(s[0] == '"');
        assert(s[1] == '"');
        assert(s.len() > 1);
        assert(s.skip(2) =~= quote_doubled(f.skip(1)) + seq!['"'] + tail);
        lemma_rt_q(f.skip(1), tail, d);
        assert(seq!['"'] + f.skip(1) =~= f);
    } else {
        assert(quote_doubled(f) == seq![f[0]] + quote_doubled(f.skip(1)));
        assert(s[0] == f[0]);
        assert(s.skip(1) =~= quote_doubled(f.skip(1)) + seq!['"'] + tail);
        lemma_rt_q(f.skip(1), tail, d);
        assert(seq![f[0]] + f.skip(1) =~= f);
    }
}

proof fn lemma_rt_field(f: Seq<char>, tail: Seq<char>, d: char)
    requires
        d != '"',
        d != '\n',
        tail.len() == 0 || tail[0] == d || tail[0] == '\n',
    ensures
        p_field(enc_field(f, d) + tail, d) == rt_result(f, tail, d),
{
    let s = enc_field(f, d) + tail;
    if needs_quote(f, d) {
        assert(s[0] == '"');
        assert(s.skip(1) =~= quote_doubled(f) + seq!['"'] + tail);
        lemma_rt_q(f, tail, d);
    } else {
        assert(s =~= f + tail);
        if s.len() > 0 && s[0] == '"' {
            assert(f.contains(f[0]));
            assert(false);
        }
        lemma_rt_unq(f, tail, d);
    }
}

proof fn lemma_rt_fields(rec: Seq<Seq<char>>, tail: Seq<char>, d: char)
    requires
        d != '"',
        d != '\n',
        rec.len() >= 1,
        tail.len() > 0,
        tail[0] == '\n',
    ensures
        p_record(enc_fields(rec, d) + tail, d) == Some((rec, tail.skip(1))),
    decreases rec.len(),
{
    if rec.len() == 1 {
        lemma_rt_field(rec[0], tail, d);
        assert(seq![rec[0]] =~= rec);
    } else {
        let tail2 = seq![d] + (enc_fields(rec.skip(1), d) + tail);
        assert(enc_fields(rec, d) + tail =~= enc_field(rec[0], d) + tail2);
        assert(tail2[0] == d);
        lemma_rt_field(rec[0], tail2, d);
        assert(tail2.skip(1) =~= enc_fields(rec.skip(1), d) + tail);
        lemma_rt_fields(rec.skip(1), tail, d);
        assert(seq![rec[0]] + rec.skip(1) =~= rec);
    }
}

proof fn lemma_rt_record(rec: Seq<Seq<char>>, tail: Seq<char>, d: char)
    requires
        d != '"',
        d != '\n',
        rec.len() >= 1,
        tail.len() > 0,
        tail[0] == '\n',
    ensures
        p_record(enc_record(rec, d) + tail, d) == Some((rec, tail.skip(1))),
{
    if rec.len() == 1 && rec[0].len() == 0 {
        let s = enc_record(rec, d) + tail;
        assert(s[0] == '"');
        assert(quote_doubled(rec[0]) =~= Seq::<char>::empty());
        assert(s.skip(1) =~= quote_doubled(rec[0]) + seq!['"'] + tail);
        lemma_rt_q(rec[0], tail, d);
        assert(seq![rec[0]] =~= rec);
    } else {
        lemma_rt_fields(rec, tail, d);
    }
}

/// An encoded record of at least one field never begins with a line
/// break, so no blank-line skipping touches it.
proof fn lemma_enc_record_head(r: Seq<Seq<char>>, d: char)
    requires
        r.len() >= 1,
        d != '\n',
        d != '\r',
    ensures
        enc_record(r, d).len() > 0,
        enc_record(r, d)[0] != '\n',
        enc_record(r, d)[0] != '\r',
{
    if r.len() == 1 && r[0].len() == 0 {
    } else if r.len() == 1 {
        if needs_quote(r[0], d) {
            assert(enc_record(r, d)[0] == '"');
        } else {
            assert(enc_record(r, d)[0] == r[0][0]);
            assert(r[0].contains(r[0][0]));
        }
    } else {
        if enc_field(r[0], d).len() == 0 {
            assert(enc_record(r, d)[0] == d);
        } else {
            assert(enc_record(r, d)[0] == enc_field(r[0], d)[0]);
            if needs_quote(r[0], d) {
                assert(enc_field(r[0], d)[0] == '"');
            } else {
                assert(enc_field(r[0], d)[0] == r[0][0]);
                assert(r[0].contains(r[0][0]));
            }
        }
    }
}

proof fn lemma_rt_table(t: Seq<Seq<Seq<char>>>, d: char)
    requires
        d != '"',
        d != '\n',
        d != '\r',
        forall|i: int| 0 <= i < t.len() ==> (#[trigger] t[i]).len() >= 1,
    ensures
        p_table(enc_table(t, d), d) == Some(t),
    decreases t.len(),
{
    if t.len() == 0 {
        assert(enc_table(t, d).len() == 0);
    } else {
        let tail = seq!['\n'] + enc_table(t.skip(1), d);
        assert(enc_table(t, d) =~= enc_record(t[0], d) + tail);
        lemma_enc_record_head(t[0], d);
        assert(enc_table(t, d)[0] == enc_record(t[0], d)[0]);
        assert(skip_blank_lines(enc_table(t, d)) == enc_table(t, d));
        lemma_rt_record(t[0], tail, d);
        assert(tail.skip(1) =~= enc_table(t.skip(1), d));
        lemma_rt_table(t.skip(1), d);
        assert(enc_table(t, d).len() > 0);
        assert(seq![t[0]] + t.skip(1) =~= t);
    }
}

/// Law: serializing a valid table (non-empty unique headers, every row as
/// wide as the header) and re-ingesting the text with the serializer's own
/// delimiter yields exactly the same headers and rows.
pub proof fn lemma_round_trip(headers: Seq<Seq<char>>, rows: Seq<Seq<Seq<char>>>, d: char)
    requires
        d != '"',
        d != '\n',
        d != '\r',
        headers.len() >= 1,
        !has_empty_header(headers),
        !has_dup_header(headers),
        rows_ok(rows, headers.len() as int),
    ensures
        spec_ingest(enc_table(seq![headers] + rows, d), d) == Ok::<
            (Seq<Seq<char>>, Seq<Seq<Seq<char>>>),
            CsvError,
        >((headers, rows)),
{
    let t = seq![headers] + rows;
    let tail = seq!['\n'] + enc_table(rows, d);
    assert(t[0] == headers);
    assert(t.skip(1) =~= rows);
    assert(enc_table(t, d) =~= enc_record(headers, d) + tail);
    lemma_enc_record_head(headers, d);
    assert(enc_table(t, d)[0] == enc_record(headers, d)[0]);
    assert(skip_blank_lines(enc_table(t, d)) == enc_table(t, d));
    lemma_rt_record(headers, tail, d);
    assert(tail.skip(1) =~= enc_table(rows, d));
    lemma_rt_table(rows, d);
    assert(p_record(enc_table(t, d), d) == Some((headers, enc_table(rows, d))));
    assert(p_table(enc_table(rows, d), d) == Some(rows));
}


/// The result of permissive content validation: a validity flag, every
/// diagnostic found, and the first data row zipped against the headers as
/// a sample record.
pub struct FileData {
    pub valid: bool,
    pub errors: Vec<String>,
    pub sample: Vec<(String, String)>,
}

/// The view of the sample record's name/value pairs.
pub open spec fn pairs_view(v: Seq<(String, String)>) -> Seq<(Seq<char>, Seq<char>)> {
    v.map_values(|p: (String, String)| (p.0@, p.1@))
}

/// Raw text split into lines at every newline; text after the last
/// newline is a line of its own, and empty text has no lines.
pub open spec fn split_lines(s: Seq<char>) -> Seq<Seq<char>>
    decreases s.len(),
{
    if s.len() == 0 {
        Seq::empty()
    } else {
        let p = strutil::find_first(s, '\n');
        proof {
            strutil::lemma_find_first_le(s, '\n');
        }
        if p == s.len() {
            seq![s]
        } else {
            seq![s.subrange(0, p)] + split_lines(s.skip(p + 1))
        }
    }
}

/// A line with one carriage return stripped off its end.
pub open spec fn line_clean(l: Seq<char>) -> Seq<char> {
    if l.len() > 0 && l.last() == '\r' {
        l.drop_last()
    } else {
        l
    }
}

/// The cleaned lines of raw text.
pub open spec fn content_lines(s: Seq<char>) -> Seq<Seq<char>> {
    split_lines(s).map_values(|l: Seq<char>| line_clean(l))
}

/// The diagnostic for a row that cannot be decoded or has the wrong
/// field count, with its 1-based display line number.
pub open spec fn msg_row(n: int) -> Seq<char> {
    "Error on line "@ + strutil::dec_of(n) + ": invalid row\n"@
}

/// The diagnostic for a row whose first column is not a telephone
/// number, with its 1-based display line number.
pub open spec fn msg_phone(n: int, content: Seq<char>) -> Seq<char> {
    "Error on line "@ + strutil::dec_of(n) + ": "@ + content + " invalid telephone\n"@
}

/// The diagnostics one data line earns: one when it cannot be decoded;
/// otherwise one when its field count differs from the header's (where
/// the header decoded at all), and one when its first column fails the
/// digits-with-optional-whitespace telephone check.
pub open spec fn row_diag(line: Seq<char>, d: char, w: Option<int>, n: int) -> Seq<Seq<char>> {
    match p_record(line, d) {
        None => seq![msg_row(n)],
        Some(rr) => ((match w {
            Some(wl) => if rr.0.len() != wl {
                seq![msg_row(n)]
            } else {
                Seq::<Seq<char>>::empty()
            },
            None => Seq::<Seq<char>>::empty(),
        }) + (if !strutil::phone_ok(rr.0[0]) {
            seq![msg_phone(n, rr.0[0])]
        } else {
            Seq::<Seq<char>>::empty()
        })),
    }
}

/// The diagnostics of all data lines, numbered from `n0`.
pub open spec fn rows_diags(lines: Seq<Seq<char>>, d: char, w: Option<int>, n0: int) -> Seq<
    Seq<char>,
>
    decreases lines.len(),
{
    if lines.len() == 0 {
        Seq::empty()
    } else {
        row_diag(lines[0], d, w, n0) + rows_diags(lines.skip(1), d, w, n0 + 1)
    }
}

proof fn lemma_rows_diags_snoc(lines: Seq<Seq<char>>, d: char, w: Option<int>, n0: int, l: Seq<
    char,
>)
    ensures
        rows_diags(lines.push(l), d, w, n0) == rows_diags(lines, d, w, n0) + row_diag(
            l,
            d,
            w,
            n0 + lines.len(),
        ),
    decreases lines.len(),
{
    if lines.len() == 0 {
        assert(lines.push(l)[0] == l);
        assert(lines.push(l).skip(1) =~= Seq::<Seq<char>>::empty());
        assert(rows_diags(Seq::<Seq<char>>::empty(), d, w, n0 + 1) =~= Seq::<Seq<char>>::empty());
        assert(rows_diags(lines.push(l), d, w, n0) =~= rows_diags(lines, d, w, n0) + row_diag(
            l,
            d,
            w,
            n0,
        ));
    } else {
        assert(lines.push(l)[0] == lines[0]);
        assert(lines.push(l).skip(1) =~= lines.skip(1).push(l));
        lemma_rows_diags_snoc(lines.skip(1), d, w, n0 + 1, l);
        assert(row_diag(lines[0], d, w, n0) + (rows_diags(lines.skip(1), d, w, n0 + 1) + row_diag(
            l,
            d,
            w,
            n0 + lines.len(),
        )) =~= (row_diag(lines[0], d, w, n0) + rows_diags(lines.skip(1), d, w, n0 + 1)) + row_diag(
            l,
            d,
            w,
            n0 + lines.len(),
        ));
    }
}

/// The diagnostics the header line earns: one when it cannot be decoded;
/// otherwise one for an empty cell and one for a duplicate, each where
/// present.
pub open spec fn header_diags(line: Seq<char>, d: char) -> Seq<Seq<char>> {
    match p_record(line, d) {
        None => seq!["header_error"@],
        Some(rr) => ((if has_empty_header(rr.0) {
            seq!["empty_header"@]
        } else {
            Seq::<Seq<char>>::empty()
        }) + (if has_dup_header(rr.0) {
            seq!["duplicate_headers"@]
        } else {
            Seq::<Seq<char>>::empty()
        })),
    }
}

/// The field count the header line fixes, where it decoded.
pub open spec fn header_width(line: Seq<char>, d: char) -> Option<int> {
    match p_record(line, d) {
        None => None,
        Some(rr) => Some(rr.0.len() as int),
    }
}

/// Every diagnostic of permissive content validation, in order: header
/// problems first, then each data line's problems in line order, then a
/// note when no data rows were found at all.
pub open spec fn spec_content_errors(s: Seq<char>, d: char) -> Seq<Seq<char>> {
    let ls = content_lines(s);
    if ls.len() == 0 {
        seq!["header_error"@, "no_rows_found"@]
    } else {
        header_diags(ls[0], d) + rows_diags(ls.skip(1), d, header_width(ls[0], d), 2) + (if ls.len()
            == 1 {
            seq!["no_rows_found"@]
        } else {
            Seq::<Seq<char>>::empty()
        })
    }
}

/// The sample record: the first data line's fields zipped against the
/// headers, as far as both reach; empty where either line is missing or
/// does not decode.
pub open spec fn spec_sample(s: Seq<char>, d: char) -> Seq<(Seq<char>, Seq<char>)> {
    let ls = content_lines(s);
    if ls.len() >= 2 {
        match (p_record(ls[0], d), p_record(ls[1], d)) {
            (Some(h), Some(r)) => Seq::new(
                vstd::math::min(h.0.len() as int, r.0.len() as int) as nat,
                |i: int| (h.0[i], r.0[i]),
            ),
            _ => Seq::empty(),
        }
    } else {
        Seq::empty()
    }
}

/// The separator sniffed for permissive validation: read off the first
/// cleaned line, `,` when there are no lines at all.
pub open spec fn spec_content_sep(s: Seq<char>) -> char {
    let ls = content_lines(s);
    crate::spec_sep_char(
        crate::spec_separator(
            if ls.len() > 0 {
                ls[0]
            } else {
                Seq::empty()
            },
        ),
    )
}

/// Splits raw text into cleaned lines.
#[verifier::loop_isolation(false)]
fn content_lines_exec(s: &Vec<char>) -> (r: Vec<Vec<char>>)
    ensures
        r.deep_view() == content_lines(s@),
{
    let n = s.len();
    let mut out: Vec<Vec<char>> = Vec::new();
    let mut pos: usize = 0;
    proof {
        assert(s@.skip(0) =~= s@);
        assert(Seq::<Seq<char>>::empty() + content_lines(s@) =~= content_lines(s@));
    }
    while pos < n
        invariant
            pos <= n,
            n == s@.len(),
            content_lines(s@) == out.deep_view() + content_lines(s@.skip(pos as int)),
        decreases n - pos,
    {
        let mut q: usize = pos;
        while q < n && s[q] != '\n'
            invariant
                pos <= q <= n,
                forall|k: int| pos <= k < q ==> s@[k] != '\n',
            decreases n - q,
        {
            q = q + 1;
        }
        proof {
            let suf = s@.skip(pos as int);
            assert forall|k: int| 0 <= k < q - pos implies suf[k] != '\n' by {
                assert(s@[k + pos] != '\n');
            }
            if q < n {
                assert(suf[q - pos] == s@[q as int]);
            }
            strutil::lemma_find_first_at(suf, '\n', q - pos);
        }
        let mut line = strutil::seg(s, pos, q);
        let ghost rawline = line@;
        if line.len() > 0 && line[line.len() - 1] == '\r' {
            line.pop();
        }
        proof {
            assert(line@ =~= line_clean(rawline));
        }
        let ghost outpre = out.deep_view();
        out.push(line);
        proof {
            let suf = s@.skip(pos as int);
            assert forall|k: int| 0 <= k < out@.len() implies out.deep_view()[k] == outpre.push(
                line_clean(rawline),
            )[k] by {
                if k < outpre.len() {
                    assert(out@[k].deep_view() == outpre[k]);
                } else {
                    assert(out@[k].deep_view() =~= line_clean(rawline));
                }
            }
            assert(out.deep_view() =~= outpre.push(line_clean(rawline)));
            if q < n {
                assert(suf.skip(q - pos + 1) =~= s@.skip(q + 1));
                assert(rawline == suf.subrange(0, q - pos));
                assert(split_lines(suf) == seq![rawline] + split_lines(s@.skip(q + 1)));
                assert(content_lines(suf) =~= seq![line_clean(rawline)] + content_lines(
                    s@.skip(q + 1),
                ));
                assert(outpre + content_lines(suf) =~= outpre.push(line_clean(rawline))
                    + content_lines(s@.skip(q + 1)));
            } else {
                assert(rawline =~= suf);
                assert(split_lines(suf) == seq![suf]);
                assert(content_lines(suf) =~= seq![line_clean(rawline)]);
                assert(s@.skip(n as int) =~= Seq::<char>::empty());
                assert(content_lines(Seq::<char>::empty()) =~= Seq::<Seq<char>>::empty());
                assert(outpre + content_lines(suf) =~= outpre.push(line_clean(rawline))
                    + content_lines(s@.skip(n as int)));
            }
        }
        pos = if q < n {
            q + 1
        } else {
            n
        };
    }
    proof {
        assert(s@.skip(n as int) =~= Seq::<char>::empty());
        assert(content_lines(Seq::<char>::empty()) =~= Seq::<Seq<char>>::empty());
        assert(out.deep_view() + Seq::<Seq<char>>::empty() =~= out.deep_view());
    }
    out
}


fn msg_row_exec(n: u64) -> (r: String)
    ensures
        r@ == msg_row(n as int),
{
    let mut v = strutil::to_chars("Error on line ");
    strutil::push_dec(&mut v, n);
    let mut t = strutil::to_chars(": invalid row\n");
    v.append(&mut t);
    proof {
        assert(v@ =~= msg_row(n as int));
    }
    strutil::chars_to_string(&v)
}

fn msg_phone_exec(n: u64, content: &Vec<char>) -> (r: String)
    ensures
        r@ == msg_phone(n as int, content@),
{
    let mut v = strutil::to_chars("Error on line ");
    strutil::push_dec(&mut v, n);
    let mut t = strutil::to_chars(": ");
    v.append(&mut t);
    v.extend_from_slice(content.as_slice());
    let mut t2 = strutil::to_chars(" invalid telephone\n");
    v.append(&mut t2);
    proof {
        assert(v@ =~= msg_phone(n as int, content@));
    }
    strutil::chars_to_string(&v)
}

fn has_empty_cell(hs: &Vec<String>) -> (r: bool)
    ensures
        r == has_empty_header(hs.deep_view()),
{
    let n = hs.len();
    let mut i: usize = 0;
    while i < n
        invariant
            i <= n,
            n == hs@.len(),
            forall|k: int| 0 <= k < i ==> (#[trigger] hs.deep_view()[k]).len() != 0,
        decreases n - i,
    {
        proof {
            assert(hs.deep_view()[i as int] == hs@[i as int]@);
        }
        if hs[i].as_str().is_empty() {
            return true;
        }
        i = i + 1;
    }
    proof {
        if has_empty_header(hs.deep_view()) {
            let k = choose|k: int|
                0 <= k < hs.deep_view().len() && (#[trigger] hs.deep_view()[k]).len() == 0;
            assert(hs.deep_view()[k].len() != 0);
        }
    }
    false
}

#[verifier::loop_isolation(false)]
fn has_dup_cell(hs: &Vec<String>) -> (r: bool)
    ensures
        r == has_dup_header(hs.deep_view()),
{
    let n = hs.len();
    let mut i: usize = 0;
    while i < n
        invariant
            i <= n,
            n == hs@.len(),
            forall|p: int, q: int|
                0 <= p < q < i ==> #[trigger] hs.deep_view()[p] != #[trigger] hs.deep_view()[q],
        decreases n - i,
    {
        let mut j: usize = 0;
        while j < i
            invariant
                j <= i < n,
                forall|p: int|
                    0 <= p < j ==> #[trigger] hs.deep_view()[p] != hs.deep_view()[i as int],
            decreases i - j,
        {
            proof {
                assert(hs.deep_view()[j as int] == hs@[j as int]@);
                assert(hs.deep_view()[i as int] == hs@[i as int]@);
            }
            if hs[j] == hs[i] {
                return true;
            }
            j = j + 1;
        }
        i = i + 1;
    }
    proof {
        if has_dup_header(hs.deep_view()) {
            let (p, q) = choose|p: int, q: int|
                0 <= p < q < hs.deep_view().len() && #[trigger] hs.deep_view()[p]
                    == #[trigger] hs.deep_view()[q];
            assert(hs.deep_view()[p] != hs.deep_view()[q]);
        }
    }
    false
}

/// Permissive content validation: never fails on row-level problems, but
/// collects every header problem, every undecodable or mis-sized data
/// row, and every row whose first column is not a telephone number, as
/// line-numbered human-readable diagnostics; flags missing data rows; and
/// hands back the first data row zipped against the headers as a sample.
#[verifier::loop_isolation(false)]
#[verifier::rlimit(100)]
pub fn verify_content(content: &str) -> (r: FileData)
    ensures
        r.errors.deep_view() == spec_content_errors(content@, spec_content_sep(content@)),
        r.valid == (spec_content_errors(content@, spec_content_sep(content@)).len() == 0),
        pairs_view(r.sample@) == spec_sample(content@, spec_content_sep(content@)),
{
    let chars = strutil::to_chars(content);
    let lines = content_lines_exec(&chars);
    let ghost ls = content_lines(content@);
    let ghost sd = spec_content_sep(content@);
    let mut errors: Vec<String> = Vec::new();
    let mut sample: Vec<(String, String)> = Vec::new();
    if lines.len() == 0 {
        strutil::push_string(&mut errors, &String::from_str("header_error"));
        strutil::push_string(&mut errors, &String::from_str("no_rows_found"));
        proof {
            assert(errors.deep_view() =~= spec_content_errors(content@, sd));
            assert(pairs_view(sample@) =~= spec_sample(content@, sd));
        }
        return FileData { valid: false, errors, sample };
    }
    proof {
        assert(lines@[0].deep_view() == ls[0]);
        assert(lines@[0]@ =~= ls[0]);
    }
    let fl = strutil::chars_to_string(&lines[0]);
    let sep = crate::get_separator(fl.as_str());
    let d = crate::sep_char(sep);
    proof {
        assert(d == sd);
    }
    let mut w: Option<usize> = None;
    let mut hdr_rec: Option<Vec<Vec<char>>> = None;
    proof {
        assert(lines@[0]@.skip(0) =~= ls[0]);
    }
    match take_record(&lines[0], 0, d) {
        None => {
            strutil::push_string(&mut errors, &String::from_str("header_error"));
            proof {
                assert(errors.deep_view() =~= header_diags(ls[0], sd));
            }
        },
        Some((hrec, _j)) => {
            let hs = record_strings(&hrec);
            if has_empty_cell(&hs) {
                strutil::push_string(&mut errors, &String::from_str("empty_header"));
            }
            if has_dup_cell(&hs) {
                strutil::push_string(&mut errors, &String::from_str("duplicate_headers"));
            }
            w = Some(hs.len());
            proof {
                assert(errors.deep_view() =~= header_diags(ls[0], sd));
            }
            hdr_rec = Some(hrec);
        },
    }
    let ghost hd = header_diags(ls[0], sd);
    let ghost wspec = header_width(ls[0], sd);
    proof {
        assert(errors.deep_view() == hd);
        assert(match wspec {
            None => w is None,
            Some(x) => w matches Some(y) && y as int == x,
        });
        assert(ls.skip(1).subrange(0, 0) =~= Seq::<Seq<char>>::empty());
        assert(rows_diags(Seq::<Seq<char>>::empty(), sd, wspec, 2) =~= Seq::<Seq<char>>::empty());
        assert(hd + Seq::<Seq<char>>::empty() =~= hd);
    }
    let mut k: usize = 1;
    while k < lines.len()
        invariant
            1 <= k <= lines@.len(),
            errors.deep_view() == hd + rows_diags(ls.skip(1).subrange(0, k - 1), sd, wspec, 2),
            k >= 2 ==> pairs_view(sample@) == spec_sample(content@, sd),
            k == 1 ==> sample@.len() == 0,
        decreases lines@.len() - k,
    {
        proof {
            assert(lines@[k as int].deep_view() == ls[k as int]);
            assert(lines@[k as int]@ =~= ls[k as int]);
            assert(lines@[k as int]@.skip(0) =~= ls[k as int]);
            assert(ls.skip(1)[k - 1] == ls[k as int]);
            assert(ls.skip(1).subrange(0, k as int) =~= ls.skip(1).subrange(0, k - 1).push(
                ls[k as int],
            ));
            lemma_rows_diags_snoc(ls.skip(1).subrange(0, k - 1), sd, wspec, 2, ls[k as int]);
            lemma_p_record_len(ls[k as int], sd);
        }
        let n64: u64 = (k as u64) + 1;
        match take_record(&lines[k], 0, d) {
            None => {
                let m = msg_row_exec(n64);
                strutil::push_string(&mut errors, &m);
                proof {
                    assert(errors.deep_view() =~= hd + rows_diags(
                        ls.skip(1).subrange(0, k as int),
                        sd,
                        wspec,
                        2,
                    ));
                }
            },
            Some((rec, _j)) => {
                let ghost ed0 = errors.deep_view();
                let mut mismatch = false;
                match w {
                    Some(wl) => {
                        if rec.len() != wl {
                            mismatch = true;
                        }
                    },
                    None => {},
                }
                if mismatch {
                    let m = msg_row_exec(n64);
                    strutil::push_string(&mut errors, &m);
                }
                proof {
                    assert(rec.deep_view()[0] == rec@[0].deep_view());
                    assert(rec@[0].deep_view() =~= rec@[0]@);
                }
                let ok = strutil::phone_ok_chars(&rec[0]);
                if !ok {
                    let m = msg_phone_exec(n64, &rec[0]);
                    strutil::push_string(&mut errors, &m);
                }
                proof {
                    assert(errors.deep_view() =~= hd + rows_diags(
                        ls.skip(1).subrange(0, k as int),
                        sd,
                        wspec,
                        2,
                    ));
                }
                if k == 1 {
                    match hdr_rec.as_ref() {
                        Some(hrec) => {
                            let m = if hrec.len() < rec.len() {
                                hrec.len()
                            } else {
                                rec.len()
                            };
                            let ghost hdv = hrec.deep_view();
                            let ghost rdv = rec.deep_view();
                            let mut si: usize = 0;
                            while si < m
                                invariant
                                    si <= m,
                                    m == vstd::math::min(hrec@.len() as int, rec@.len() as int),
                                    sample@.len() == si,
                                    forall|jj: int|
                                        0 <= jj < si ==> #[trigger] pairs_view(sample@)[jj] == (
                                        hdv[jj],
                                        rdv[jj],
                                    ),
                                decreases m - si,
                            {
                                let pair = (
                                    strutil::chars_to_string(&hrec[si]),
                                    strutil::chars_to_string(&rec[si]),
                                );
                                let ghost prevs = sample@;
                                sample.push(pair);
                                proof {
                                    assert forall|jj: int| 0 <= jj < si + 1 implies #[trigger] pairs_view(
                                        sample@,
                                    )[jj] == (hdv[jj], rdv[jj]) by {
                                        assert(pairs_view(sample@)[jj] == (
                                            sample@[jj].0@,
                                            sample@[jj].1@,
                                        ));
                                        if jj < si {
                                            assert(sample@[jj] == prevs[jj]);
                                            assert(pairs_view(prevs)[jj] == (
                                                prevs[jj].0@,
                                                prevs[jj].1@,
                                            ));
                                        } else {
                                            assert(sample@[jj].0@ =~= hdv[jj]);
                                            assert(sample@[jj].1@ =~= rdv[jj]);
                                        }
                                    }
                                }
                                si = si + 1;
                            }
                            proof {
                                assert(pairs_view(sample@) =~= spec_sample(content@, sd));
                            }
                        },
                        None => {
                            proof {
                                assert(pairs_view(sample@) =~= spec_sample(content@, sd));
                            }
                        },
                    }
                }
            },
        }
        k = k + 1;
    }
    proof {
        assert(ls.skip(1).subrange(0, ls.len() - 1) =~= ls.skip(1));
    }
    if lines.len() == 1 {
        strutil::push_string(&mut errors, &String::from_str("no_rows_found"));
        proof {
            assert(errors.deep_view() =~= spec_content_errors(content@, sd));
            assert(pairs_view(sample@) =~= spec_sample(content@, sd));
        }
    } else {
        proof {
            assert(hd + rows_diags(ls.skip(1), sd, wspec, 2) + Seq::<Seq<char>>::empty() =~= hd
                + rows_diags(ls.skip(1), sd, wspec, 2));
            assert(errors.deep_view() =~= spec_content_errors(content@, sd));
        }
    }
    let valid = errors.len() == 0;
    proof {
        assert(errors.deep_view().len() == errors@.len());
    }
    FileData { valid, errors, sample }
}

} // verus!
