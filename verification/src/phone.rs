use vstd::prelude::*;

use crate::strutil;
use crate::strutil::{ascii_upper_char, chars_to_string, digit_char, to_chars, upper_code};
use vstd::string::StringExecFns;

verus! {

/// One country's numbering-plan rule: a national number of exactly
/// `digit_len` digits gets `prefix` (the country calling code) put in
/// front of it; anything else is left as bare digits.
pub struct CountryRule {
    pub code: String,
    pub digit_len: usize,
    pub prefix: String,
}

/// The bundled rule table: country code, expected national-number length,
/// and the international prefix to prepend.
pub open spec fn spec_countries() -> Seq<(Seq<char>, int, Seq<char>)> {
    seq![
        ("AR"@, 10int, "54"@),
        ("BO"@, 8int, "591"@),
        ("BR"@, 11int, "55"@),
        ("CL"@, 9int, "56"@),
        ("CO"@, 10int, "57"@),
        ("CR"@, 8int, "506"@),
        ("DO"@, 10int, "1"@),
        ("EC"@, 9int, "593"@),
        ("SV"@, 8int, "503"@),
        ("GT"@, 8int, "502"@),
        ("HN"@, 8int, "504"@),
        ("MX"@, 10int, "52"@),
        ("NI"@, 8int, "505"@),
        ("PA"@, 8int, "507"@),
        ("PE"@, 9int, "51"@),
        ("PY"@, 9int, "595"@),
        ("UK"@, 10int, "44"@),
        ("US"@, 10int, "1"@),
        ("UY"@, 8int, "598"@),
        ("VE"@, 10int, "58"@),
    ]
}

/// The first rule of `tbl` whose code is `code`, if any.
pub open spec fn rule_for(code: Seq<char>, tbl: Seq<(Seq<char>, int, Seq<char>)>) -> Option<
    (int, Seq<char>),
>
    decreases tbl.len(),
{
    if tbl.len() == 0 {
        None
    } else if tbl[0].0 == code {
        Some((tbl[0].1, tbl[0].2))
    } else {
        rule_for(code, tbl.skip(1))
    }
}

/// The rule the bundled table gives an (already upcased) country code.
pub open spec fn spec_rule(code: Seq<char>) -> Option<(int, Seq<char>)> {
    rule_for(code, spec_countries())
}

/// The digits of `s`, in order, with every other character dropped.
pub open spec fn digits_of(s: Seq<char>) -> Seq<char> {
    s.filter(|c: char| strutil::is_digit(c))
}

/// The whole phone-normalization policy: strip the raw phone to digits,
/// upcase the country code, and if the code has a rule whose length the
/// digit string matches, prepend that rule's prefix; otherwise return the
/// bare digits.
pub open spec fn spec_format_destination(phone: Seq<char>, code: Seq<char>) -> Seq<char> {
    let dg = digits_of(phone);
    match spec_rule(upper_code(code)) {
        None => dg,
        Some(rl) => if dg.len() == rl.0 {
            rl.1 + dg
        } else {
            dg
        },
    }
}

/// The view of an executable rule table.
pub open spec fn rules_view(v: Seq<CountryRule>) -> Seq<(Seq<char>, int, Seq<char>)> {
    v.map_values(|c: CountryRule| (c.code@, c.digit_len as int, c.prefix@))
}

fn rule(code: &str, digit_len: usize, prefix: &str) -> (r: CountryRule)
    ensures
        r.code@ == code@ && r.digit_len == digit_len && r.prefix@ == prefix@,
{
    CountryRule { code: String::from_str(code), digit_len, prefix: String::from_str(prefix) }
}

/// The bundled rule table as a value, one entry per supported country.
pub fn countries() -> (r: Vec<CountryRule>)
    ensures
        rules_view(r@) == spec_countries(),
{
    let mut v: Vec<CountryRule> = Vec::new();
    v.push(rule("AR", 10, "54"));
    v.push(rule("BO", 8, "591"));
    v.push(rule("BR", 11, "55"));
    v.push(rule("CL", 9, "56"));
    v.push(rule("CO", 10, "57"));
    v.push(rule("CR", 8, "506"));
    v.push(rule("DO", 10, "1"));
    v.push(rule("EC", 9, "593"));
    v.push(rule("SV", 8, "503"));
    v.push(rule("GT", 8, "502"));
    v.push(rule("HN", 8, "504"));
    v.push(rule("MX", 10, "52"));
    v.push(rule("NI", 8, "505"));
    v.push(rule("PA", 8, "507"));
    v.push(rule("PE", 9, "51"));
    v.push(rule("PY", 9, "595"));
    v.push(rule("UK", 10, "44"));
    v.push(rule("US", 10, "1"));
    v.push(rule("UY", 8, "598"));
    v.push(rule("VE", 10, "58"));
    proof {
        assert(rules_view(v@) =~= spec_countries());
    }
    v
}

/// Looks an (already upcased) country code up in the bundled table.
pub fn get_country_info(code: &String) -> (r: Option<CountryRule>)
    ensures
        match spec_rule(code@) {
            None => r is None,
            Some(rl) => r matches Some(c) && c.digit_len as int == rl.0 && c.prefix@ == rl.1
                && c.code@ == code@,
        },
{
    let tbl = countries();
    let n = tbl.len();
    let mut i: usize = 0;
    proof {
        assert(rules_view(tbl@).skip(0) =~= rules_view(tbl@));
    }
    while i < n
        invariant
            n == tbl@.len(),
            i <= n,
            rules_view(tbl@) == spec_countries(),
            rule_for(code@, spec_countries()) == rule_for(code@, rules_view(tbl@).skip(i as int)),
        decreases n - i,
    {
        proof {
            assert(rules_view(tbl@).skip(i as int)[0] == rules_view(tbl@)[i as int]);
            assert(rules_view(tbl@).skip(i as int).skip(1) =~= rules_view(tbl@).skip(i + 1));
        }
        if tbl[i].code == *code {
            let r = CountryRule {
                code: tbl[i].code.clone(),
                digit_len: tbl[i].digit_len,
                prefix: tbl[i].prefix.clone(),
            };
            return Some(r);
        }
        i = i + 1;
    }
    proof {
        assert(rules_view(tbl@).skip(n as int) =~= Seq::<(Seq<char>, int, Seq<char>)>::empty());
    }
    None
}

/// Strips every non-digit character out of a phone number.
fn clean_phone_number(phone: &str) -> (r: Vec<char>)
    ensures
        r@ == digits_of(phone@),
{
    let chars = to_chars(phone);
    let n = chars.len();
    let mut out: Vec<char> = Vec::new();
    let mut i: usize = 0;
    proof {
        reveal(Seq::filter);
    }
    while i < n
        invariant
            n == chars@.len(),
            chars@ == phone@,
            i <= n,
            out@ == chars@.subrange(0, i as int).filter(|c: char| strutil::is_digit(c)),
        decreases n - i,
    {
        let c = chars[i];
        proof {
            reveal(Seq::filter);
            let pre = chars@.subrange(0, i as int);
            assert(chars@.subrange(0, i + 1) =~= pre.push(chars@[i as int]));
            assert(pre.push(chars@[i as int]).drop_last() =~= pre);
        }
        if digit_char(c) {
            out.push(c);
        }
        i = i + 1;
    }
    proof {
        assert(chars@.subrange(0, n as int) =~= chars@);
    }
    out
}

/// Upcases a country code, ASCII letter by letter.
fn upcase_code(code: &str) -> (r: String)
    ensures
        r@ == upper_code(code@),
{
    let chars = to_chars(code);
    let n = chars.len();
    let mut out: Vec<char> = Vec::new();
    let mut i: usize = 0;
    while i < n
        invariant
            n == chars@.len(),
            chars@ == code@,
            i <= n,
            out@.len() == i,
            forall|k: int| 0 <= k < i ==> out@[k] == upper_code(code@)[k],
        decreases n - i,
    {
        out.push(ascii_upper_char(chars[i]));
        i = i + 1;
    }
    proof {
        assert(out@ =~= upper_code(code@));
    }
    chars_to_string(&out)
}

/// Normalizes a raw phone number for a destination country: digits only,
/// with the country's international prefix put in front when the digit
/// count matches the country's numbering plan; bare digits for unknown
/// countries or non-matching numbers. Total over all strings.
pub fn format_destination(phone_number: &str, country_code: &str) -> (r: String)
    ensures
        r@ == spec_format_destination(phone_number@, country_code@),
{
    let code_up = upcase_code(country_code);
    let digits = clean_phone_number(phone_number);
    match get_country_info(&code_up) {
        None => chars_to_string(&digits),
        Some(rule) => {
            if digits.len() == rule.digit_len {
                let mut out = to_chars(rule.prefix.as_str());
                let mut dg = digits;
                out.append(&mut dg);
                chars_to_string(&out)
            } else {
                chars_to_string(&digits)
            }
        },
    }
}

} // verus!
