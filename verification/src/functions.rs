use vstd::prelude::*;

use crate::strutil;
use crate::strutil::{
    chars_to_string, dec_of, dec_string, find_first, first_index, is_digit, pad2_of, pad4_of,
    push_dec, push_pad2, push_pad4, seg, to_chars,
};

verus! {

/// The closed set of column-generating functions the template engine
/// knows, plus the explicit passthrough for unrecognized names.
#[derive(Clone, Copy, PartialEq, Eq, Structural, Debug)]
pub enum FunctionKind {
    SendDate,
    SendHour,
    RandomNum,
    Downcase,
    Upcase,
    FirstWord,
    FirstDown,
    Fixed,
    Dynamic,
    Unrecognized,
}

/// One generated output column: its name, the function to run, the input
/// column it reads (if any), and the literal target value some kinds use
/// (the fixed text, or the timezone for the hour function).
#[derive(Clone, Debug)]
pub struct FunctionSpec {
    pub output_name: String,
    pub kind: FunctionKind,
    pub source: Option<String>,
    pub target: Option<String>,
}

/// What `str::to_lowercase` returns for a given character sequence.
pub uninterp spec fn lower_of(s: Seq<char>) -> Seq<char>;

/// What `str::to_uppercase` returns for a given character sequence.
pub uninterp spec fn upper_of(s: Seq<char>) -> Seq<char>;

/// Relies on std's str::to_lowercase: the result is a function of the
/// characters alone.
#[verifier::external_body]
fn to_lowercase_str(s: &str) -> (r: String)
    ensures
        r@ == lower_of(s@),
{
    s.to_lowercase()
}

/// Relies on std's str::to_uppercase: the result is a function of the
/// characters alone.
#[verifier::external_body]
fn to_uppercase_str(s: &str) -> (r: String)
    ensures
        r@ == upper_of(s@),
{
    s.to_uppercase()
}

/// Relies on rand::random_range: a uniform draw from a range lies in it.
#[verifier::external_body]
fn random_below_1000() -> (r: u64)
    ensures
        r < 1000,
{
    rand::random_range(0u64..1000u64)
}

/// Relies on chrono's Utc::now and the Datelike accessors: a calendar
/// date's day is in 1..=31 and its month in 1..=12, and chrono's year is
/// an i32, so it fits those bounds.
#[verifier::external_body]
fn current_utc_date() -> (r: (u32, u32, i64))
    ensures
        1 <= r.0 <= 31,
        1 <= r.1 <= 12,
        -2147483648 <= r.2 <= 2147483647,
{
    let now = chrono::Utc::now();
    (chrono::Datelike::day(&now), chrono::Datelike::month(&now), chrono::Datelike::year(&now)
        as i64)
}

/// Relies on chrono's FixedOffset::east_opt (defined for offsets strictly
/// inside one day) and the Timelike accessors: a local time's hour is
/// below 24 and its minute below 60.
#[verifier::external_body]
fn current_hour_minute(offset_seconds: i32) -> (r: (u32, u32))
    requires
        -86400 < offset_seconds < 86400,
    ensures
        r.0 < 24,
        r.1 < 60,
{
    let tz = chrono::FixedOffset::east_opt(offset_seconds).unwrap();
    let t = chrono::Utc::now().with_timezone(&tz);
    (chrono::Timelike::hour(&t), chrono::Timelike::minute(&t))
}

/// The value of a string of decimal digits, most significant first.
pub open spec fn digits_value(s: Seq<char>) -> int
    decreases s.len(),
{
    if s.len() == 0 {
        0
    } else {
        digits_value(s.drop_last()) * 10 + (s.last() as u32 - 48)
    }
}

/// Whether every character of `s` is a decimal digit.
pub open spec fn all_digits(s: Seq<char>) -> bool {
    forall|i: int| 0 <= i < s.len() ==> is_digit(#[trigger] s[i])
}

/// How a numeric part of a timezone is read: an optional leading `+`,
/// then digits; anything else, an empty part, or a value that overflows
/// a 32-bit integer reads as zero.
pub open spec fn parse_int_or_zero(s: Seq<char>) -> int {
    let body = if s.len() > 0 && s[0] == '+' {
        s.skip(1)
    } else {
        s
    };
    if body.len() > 0 && all_digits(body) && digits_value(body) <= 2147483647 {
        digits_value(body)
    } else {
        0
    }
}

/// The timezone offset policy: drop every `-` to get the magnitude text,
/// read hours before the first `:` and minutes after it (zero when absent
/// or unreadable), and negate when the original text held a `-`.
pub open spec fn tz_offset_seconds(tz: Seq<char>) -> int {
    let neutral = tz.filter(|c: char| c != '-');
    let p = find_first(neutral, ':');
    let h = parse_int_or_zero(neutral.subrange(0, p));
    let m = if p < neutral.len() {
        let rest = neutral.skip(p + 1);
        parse_int_or_zero(rest.subrange(0, find_first(rest, ':')))
    } else {
        0
    };
    let mag = h * 3600 + m * 60;
    if tz.contains('-') {
        -mag
    } else {
        mag
    }
}

/// Reads one numeric timezone part, returning zero on anything that is
/// not an optionally-plus-signed 32-bit digit string.
#[verifier::loop_isolation(false)]
fn parse_part(v: &Vec<char>) -> (r: i64)
    ensures
        r == parse_int_or_zero(v@),
        0 <= r <= 2147483647,
{
    let n = v.len();
    let b0: usize = if n > 0 && v[0] == '+' {
        1
    } else {
        0
    };
    let ghost body = if b0 == 1 {
        v@.skip(1)
    } else {
        v@
    };
    proof {
        if b0 == 1 {
            assert(body =~= v@.skip(1));
        }
        assert(body.len() == n - b0);
    }
    if n == b0 {
        return 0;
    }
    let mut val: u64 = 0;
    let mut big: bool = false;
    let mut i: usize = b0;
    while i < n
        invariant
            b0 <= i <= n,
            n == v@.len(),
            body == (if b0 == 1 {
                v@.skip(1)
            } else {
                v@
            }),
            body.len() == n - b0,
            forall|k: int| 0 <= k < i - b0 ==> is_digit(#[trigger] body[k]),
            !big ==> val <= 2147483647 && val == digits_value(body.subrange(0, i - b0)),
            big ==> digits_value(body.subrange(0, i - b0)) > 2147483647,
        decreases n - i,
    {
        let c = v[i];
        proof {
            assert(body[i - b0] == v@[i as int]);
        }
        if !strutil::digit_char(c) {
            proof {
                assert(!is_digit(body[i - b0]));
                assert(!all_digits(body));
            }
            return 0;
        }
        let d: u64 = (c as u32 - 48) as u64;
        let ghost pre = body.subrange(0, i - b0);
        proof {
            assert(body.subrange(0, i + 1 - b0) =~= pre.push(body[i - b0]));
            assert(pre.push(body[i - b0]).drop_last() =~= pre);
            assert(digits_value(body.subrange(0, i + 1 - b0)) == digits_value(pre) * 10 + d);
        }
        if !big {
            let nv: u64 = val * 10 + d;
            if nv > 2147483647 {
                big = true;
            } else {
                val = nv;
            }
        } else {
            proof {
                assert(digits_value(pre) * 10 + d > 2147483647) by {
                    assert(digits_value(pre) > 2147483647);
                    assert(digits_value(pre) * 10 == digits_value(pre) * 9 + digits_value(pre));
                    assert(digits_value(pre) * 9 >= 0) by (nonlinear_arith)
                        requires
                            digits_value(pre) > 0,
                    ;
                }
            }
        }
        i = i + 1;
    }
    proof {
        assert(body.subrange(0, n - b0) =~= body);
        assert(all_digits(body));
    }
    if big {
        0
    } else {
        val as i64
    }
}

/// Reads a timezone text into a signed offset in seconds.
fn parse_timezone(timezone: &str) -> (r: i64)
    ensures
        r == tz_offset_seconds(timezone@),
        -2147483647 * 3660 <= r <= 2147483647 * 3660,
{
    let chars = to_chars(timezone);
    let n = chars.len();
    let mut neutral: Vec<char> = Vec::new();
    let mut has_dash: bool = false;
    let mut i: usize = 0;
    proof {
        reveal(Seq::filter);
    }
    while i < n
        invariant
            n == chars@.len(),
            chars@ == timezone@,
            i <= n,
            neutral@ == chars@.subrange(0, i as int).filter(|c: char| c != '-'),
            has_dash == (exists|k: int| 0 <= k < i && #[trigger] chars@[k] == '-'),
        decreases n - i,
    {
        let c = chars[i];
        proof {
            reveal(Seq::filter);
            let pre = chars@.subrange(0, i as int);
            assert(chars@.subrange(0, i + 1) =~= pre.push(chars@[i as int]));
            assert(pre.push(chars@[i as int]).drop_last() =~= pre);
        }
        if c == '-' {
            has_dash = true;
        } else {
            neutral.push(c);
        }
        i = i + 1;
    }
    proof {
        assert(chars@.subrange(0, n as int) =~= chars@);
    }
    let p = first_index(&neutral, ':');
    let hseg = seg(&neutral, 0, p);
    let h = parse_part(&hseg);
    let m: i64 = if p < neutral.len() {
        let rest = seg(&neutral, p + 1, neutral.len());
        let p2 = first_index(&rest, ':');
        let mseg = seg(&rest, 0, p2);
        proof {
            assert(rest@.subrange(0, find_first(rest@, ':')) == mseg@);
        }
        parse_part(&mseg)
    } else {
        0
    };
    let mag: i64 = h * 3600 + m * 60;
    if has_dash {
        -mag
    } else {
        mag
    }
}

/// The first word of a value: everything before the first space.
pub open spec fn first_word_of(s: Seq<char>) -> Seq<char> {
    s.subrange(0, find_first(s, ' '))
}

/// Extracts the first word of a string.
fn first_word(value: &str) -> (r: String)
    ensures
        r@ == first_word_of(value@),
{
    let chars = to_chars(value);
    let p = first_index(&chars, ' ');
    let w = seg(&chars, 0, p);
    chars_to_string(&w)
}

/// A date formatted `D/M/YYYY`: no leading zero on the day, two digits
/// for the month, at least four for the year.
pub open spec fn date_format(d: int, m: int, y: int) -> Seq<char> {
    dec_of(d) + seq!['/'] + pad2_of(m) + seq!['/'] + (if y < 0 {
        seq!['-'] + pad4_of(-y)
    } else {
        pad4_of(y)
    })
}

/// A time of day formatted `HH:MM`, both parts zero-padded to two digits.
pub open spec fn hour_format(h: int, m: int) -> Seq<char> {
    pad2_of(h) + seq![':'] + pad2_of(m)
}

/// The view of an optional borrowed string.
pub open spec fn opt_view(t: Option<&String>) -> Option<Seq<char>> {
    match t {
        None => None,
        Some(s) => Some(s@),
    }
}

/// What the template engine owes for one generated cell, given the kind,
/// the source value and the target text: the pure kinds are pinned down
/// exactly; the clock- and randomness-driven kinds yield some value of
/// the right shape, fresh on every call.
pub open spec fn cell_matches(
    kind: FunctionKind,
    value: Seq<char>,
    target: Option<Seq<char>>,
    out: Seq<char>,
) -> bool {
    match kind {
        FunctionKind::SendDate => exists|dd: int, mm: int, yy: int|
            1 <= dd <= 31 && 1 <= mm <= 12 && out == #[trigger] date_format(dd, mm, yy),
        FunctionKind::SendHour => exists|hh: int, mm: int|
            0 <= hh < 24 && 0 <= mm < 60 && out == #[trigger] hour_format(hh, mm),
        FunctionKind::RandomNum => exists|n: int| 0 <= n < 1000 && out == #[trigger] dec_of(n),
        FunctionKind::Downcase => out == lower_of(value),
        FunctionKind::Upcase => out == upper_of(value),
        FunctionKind::FirstWord => out == first_word_of(value),
        FunctionKind::FirstDown => out == lower_of(first_word_of(value)),
        FunctionKind::Fixed => out == (match target {
            None => Seq::<char>::empty(),
            Some(t) => t,
        }),
        FunctionKind::Dynamic => out == value,
        FunctionKind::Unrecognized => out == value,
    }
}

/// Evaluates one template function against a source value and an optional
/// target text (the fixed value, or the timezone for the hour function).
/// Never fails: every input maps to some output string.
pub fn apply_function(kind: &FunctionKind, value: String, target: Option<&String>) -> (r: String)
    ensures
        cell_matches(*kind, value@, opt_view(target), r@),
{
    match kind {
        FunctionKind::SendDate => {
            let (dd, mm, yy) = current_utc_date();
            let mut v: Vec<char> = Vec::new();
            push_dec(&mut v, dd as u64);
            v.push('/');
            push_pad2(&mut v, mm as u64);
            v.push('/');
            if yy < 0 {
                v.push('-');
                push_pad4(&mut v, (-yy) as u64);
            } else {
                push_pad4(&mut v, yy as u64);
            }
            proof {
                assert(v@ =~= date_format(dd as int, mm as int, yy as int));
            }
            chars_to_string(&v)
        },
        FunctionKind::SendHour => {
            let off: i64 = match target {
                Some(t) => parse_timezone(t.as_str()),
                None => 0,
            };
            let off32: i32 = if -86400 < off && off < 86400 {
                off as i32
            } else {
                0
            };
            let (hh, mm) = current_hour_minute(off32);
            let mut v: Vec<char> = Vec::new();
            push_pad2(&mut v, hh as u64);
            v.push(':');
            push_pad2(&mut v, mm as u64);
            proof {
                assert(v@ =~= hour_format(hh as int, mm as int));
            }
            chars_to_string(&v)
        },
        FunctionKind::RandomNum => {
            let n = random_below_1000();
            dec_string(n)
        },
        FunctionKind::Downcase => to_lowercase_str(value.as_str()),
        FunctionKind::Upcase => to_uppercase_str(value.as_str()),
        FunctionKind::FirstWord => first_word(value.as_str()),
        FunctionKind::FirstDown => {
            let w = first_word(value.as_str());
            to_lowercase_str(w.as_str())
        },
        FunctionKind::Fixed => match target {
            None => String::new(),
            Some(t) => t.clone(),
        },
        FunctionKind::Dynamic => value,
        FunctionKind::Unrecognized => value,
    }
}

/// The position of the first header named `name`, if any.
pub open spec fn find_header(headers: Seq<Seq<char>>, name: Seq<char>) -> Option<int>
    decreases headers.len(),
{
    if headers.len() == 0 {
        None
    } else if headers[0] == name {
        Some(0)
    } else {
        match find_header(headers.skip(1), name) {
            None => None,
            Some(i) => Some(i + 1),
        }
    }
}

/// Where a function spec's source column sits among the headers: nowhere
/// when the spec names no source or names an unknown column.
pub open spec fn spec_fn_index(source: Option<Seq<char>>, headers: Seq<Seq<char>>) -> Option<int> {
    match source {
        None => None,
        Some(src) => find_header(headers, src),
    }
}

proof fn lemma_find_header_at(headers: Seq<Seq<char>>, name: Seq<char>, i: int)
    requires
        0 <= i <= headers.len(),
        forall|k: int| 0 <= k < i ==> headers[k] != name,
        i == headers.len() || headers[i] == name,
    ensures
        find_header(headers, name) == (if i == headers.len() {
            None::<int>
        } else {
            Some(i)
        }),
    decreases headers.len(),
{
    if headers.len() == 0 {
    } else if i == 0 {
    } else {
        assert(headers[0] != name);
        assert forall|k: int| 0 <= k < i - 1 implies headers.skip(1)[k] != name by {
            assert(headers[k + 1] != name);
        }
        if i < headers.len() {
            assert(headers.skip(1)[i - 1] == name);
        }
        lemma_find_header_at(headers.skip(1), name, i - 1);
    }
}

/// Resolves a function spec's source column to its position among the
/// headers, if the spec names one and it exists.
#[verifier::loop_isolation(false)]
pub fn get_function_index(fspec: &FunctionSpec, headers: &Vec<String>) -> (r: Option<usize>)
    ensures
        match spec_fn_index(opt_string_view(fspec.source), headers.deep_view()) {
            None => r is None,
            Some(i) => r matches Some(j) && j as int == i && i < headers.deep_view().len(),
        },
{
    match fspec.source.as_ref() {
        None => None,
        Some(src) => {
            let n = headers.len();
            let mut i: usize = 0;
            while i < n
                invariant
                    n == headers@.len(),
                    i <= n,
                    forall|k: int| 0 <= k < i ==> #[trigger] headers.deep_view()[k] != src@,
                decreases n - i,
            {
                proof {
                    assert(headers.deep_view()[i as int] == headers@[i as int]@);
                }
                if headers[i] == *src {
                    proof {
                        assert(headers.deep_view()[i as int] == src@);
                        lemma_find_header_at(headers.deep_view(), src@, i as int);
                        assert(opt_string_view(fspec.source) == Some(src@));
                        assert(spec_fn_index(opt_string_view(fspec.source), headers.deep_view())
                            == Some(i as int));
                    }
                    return Some(i);
                }
                i = i + 1;
            }
            proof {
                lemma_find_header_at(headers.deep_view(), src@, n as int);
            }
            None
        },
    }
}

/// The source value a function spec reads from a row: the cell under the
/// resolved column, or the empty string when no column resolves.
pub open spec fn source_value(
    source: Option<Seq<char>>,
    headers: Seq<Seq<char>>,
    row: Seq<Seq<char>>,
) -> Seq<char> {
    match spec_fn_index(source, headers) {
        None => Seq::<char>::empty(),
        Some(i) => if 0 <= i < row.len() {
            row[i]
        } else {
            Seq::<char>::empty()
        },
    }
}

/// The view of a function spec's own option fields.
pub open spec fn opt_string_view(o: Option<String>) -> Option<Seq<char>> {
    match o {
        None => None,
        Some(s) => Some(s@),
    }
}

/// Appends one generated cell per function spec to `new_row`, in the
/// specs' order: each cell is that function's result on the row's value
/// under the spec's source column (empty when the column is absent).
#[verifier::loop_isolation(false)]
pub fn fill_row(
    new_row: &mut Vec<String>,
    functions: &Vec<FunctionSpec>,
    row: &Vec<String>,
    headers: &Vec<String>,
)
    requires
        row@.len() == headers@.len(),
    ensures
        final(new_row)@.len() == old(new_row)@.len() + functions@.len(),
        forall|k: int| 0 <= k < old(new_row)@.len() ==> final(new_row)@[k] == old(new_row)@[k],
        forall|k: int|
            0 <= k < functions@.len() ==> cell_matches(
                functions@[k].kind,
                source_value(
                    opt_string_view(functions@[k].source),
                    headers.deep_view(),
                    row.deep_view(),
                ),
                opt_string_view(functions@[k].target),
                final(new_row)@[old(new_row)@.len() + k]@,
            ),
{
    let n = functions.len();
    let mut i: usize = 0;
    while i < n
        invariant
            i <= n,
            n == functions@.len(),
            new_row@.len() == old(new_row)@.len() + i,
            forall|k: int| 0 <= k < old(new_row)@.len() ==> new_row@[k] == old(new_row)@[k],
            forall|k: int|
                0 <= k < i ==> cell_matches(
                    functions@[k].kind,
                    source_value(
                        opt_string_view(functions@[k].source),
                        headers.deep_view(),
                        row.deep_view(),
                    ),
                    opt_string_view(functions@[k].target),
                    new_row@[old(new_row)@.len() + k]@,
                ),
        decreases n - i,
    {
        let fspec = &functions[i];
        let value: String = match get_function_index(fspec, headers) {
            Some(index) => row[index].clone(),
            None => String::new(),
        };
        proof {
            assert(value@ == source_value(
                opt_string_view(functions@[i as int].source),
                headers.deep_view(),
                row.deep_view(),
            ));
        }
        let cell = apply_function(&fspec.kind, value, fspec.target.as_ref());
        new_row.push(cell);
        i = i + 1;
    }
}

} // verus!
