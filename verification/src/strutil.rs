use vstd::prelude::*;
use vstd::string::StrSliceExecFns;

verus! {

/// Whether `c` is one of the decimal digits `0` through `9`.
pub open spec fn is_digit(c: char) -> bool {
    48 <= c as u32 && c as u32 <= 57
}

/// Executable test for [`is_digit`].
pub fn digit_char(c: char) -> (r: bool)
    ensures
        r == is_digit(c),
{
    (c as u32) >= 48 && (c as u32) <= 57
}

/// ASCII upcasing of one character: `a`..`z` map to `A`..`Z`, everything
/// else is unchanged.
pub open spec fn ascii_upper(c: char) -> char {
    if 97 <= c as u32 && c as u32 <= 122 {
        ((c as u32 - 32) as u8) as char
    } else {
        c
    }
}

/// A sequence of characters upcased letter by letter, per [`ascii_upper`].
pub open spec fn upper_code(s: Seq<char>) -> Seq<char> {
    s.map_values(|c: char| ascii_upper(c))
}

/// Executable ASCII upcasing of one character.
pub fn ascii_upper_char(c: char) -> (r: char)
    ensures
        r == ascii_upper(c),
{
    let u = c as u32;
    if u >= 97 && u <= 122 {
        ((u - 32) as u8) as char
    } else {
        c
    }
}

/// The characters of `s`, in order, as a vector.
pub fn to_chars(s: &str) -> (r: Vec<char>)
    ensures
        r@ == s@,
{
    let n = s.unicode_len();
    let mut v: Vec<char> = Vec::new();
    let mut i: usize = 0;
    while i < n
        invariant
            n == s@.len(),
            i <= n,
            v@ == s@.subrange(0, i as int),
        decreases n - i,
    {
        let c = s.get_char(i);
        v.push(c);
        proof {
            assert(s@.subrange(0, i + 1) =~= s@.subrange(0, i as int).push(s@[i as int]));
        }
        i = i + 1;
    }
    proof {
        assert(s@.subrange(0, n as int) =~= s@);
    }
    v
}

/// Relies on std's iterator over `char` collecting into a `String`: the
/// resulting string holds exactly the characters of `v`, in order.
#[verifier::external_body]
pub fn chars_to_string(v: &Vec<char>) -> (r: String)
    ensures
        r@ == v@,
{
    v.iter().collect()
}

/// The decimal digit `d` (below ten) as a character.
pub open spec fn dec_digit(d: int) -> char {
    if d == 0 {
        '0'
    } else if d == 1 {
        '1'
    } else if d == 2 {
        '2'
    } else if d == 3 {
        '3'
    } else if d == 4 {
        '4'
    } else if d == 5 {
        '5'
    } else if d == 6 {
        '6'
    } else if d == 7 {
        '7'
    } else if d == 8 {
        '8'
    } else {
        '9'
    }
}

/// The usual decimal notation of a non-negative integer, without leading
/// zeros (except for zero itself).
pub open spec fn dec_of(n: int) -> Seq<char>
    decreases n,
{
    if n < 10 {
        seq![dec_digit(n)]
    } else {
        dec_of(n / 10) + seq![dec_digit(n % 10)]
    }
}

/// Appends the decimal notation of `n` to `out`.
pub fn push_dec(out: &mut Vec<char>, n: u64)
    ensures
        final(out)@ == old(out)@ + dec_of(n as int),
    decreases n,
{
    let d: u64 = n % 10;
    let c: char = ((48 + d) as u8) as char;
    proof {
        assert(c == dec_digit(n as int % 10));
    }
    if n < 10 {
        out.push(c);
        proof {
            assert(out@ =~= old(out)@ + dec_of(n as int));
        }
    } else {
        push_dec(out, n / 10);
        out.push(c);
        proof {
            assert(out@ =~= old(out)@ + dec_of(n as int));
        }
    }
}

/// The decimal notation of `n` as a string.
pub fn dec_string(n: u64) -> (r: String)
    ensures
        r@ == dec_of(n as int),
{
    let mut v: Vec<char> = Vec::new();
    push_dec(&mut v, n);
    chars_to_string(&v)
}

/// Decimal notation padded with zeros on the left to at least two digits.
pub open spec fn pad2_of(n: int) -> Seq<char> {
    if n < 10 {
        seq!['0'] + dec_of(n)
    } else {
        dec_of(n)
    }
}

/// Appends the two-digit zero-padded decimal notation of `n` to `out`.
pub fn push_pad2(out: &mut Vec<char>, n: u64)
    ensures
        final(out)@ == old(out)@ + pad2_of(n as int),
{
    if n < 10 {
        out.push('0');
    }
    push_dec(out, n);
    proof {
        if n < 10 {
            assert(out@ =~= old(out)@ + pad2_of(n as int));
        }
    }
}

/// Decimal notation padded with zeros on the left to at least four digits.
pub open spec fn pad4_of(n: int) -> Seq<char> {
    if n < 10 {
        seq!['0', '0', '0'] + dec_of(n)
    } else if n < 100 {
        seq!['0', '0'] + dec_of(n)
    } else if n < 1000 {
        seq!['0'] + dec_of(n)
    } else {
        dec_of(n)
    }
}

/// Appends the four-digit zero-padded decimal notation of `n` to `out`.
pub fn push_pad4(out: &mut Vec<char>, n: u64)
    ensures
        final(out)@ == old(out)@ + pad4_of(n as int),
{
    if n < 10 {
        out.push('0');
        out.push('0');
        out.push('0');
    } else if n < 100 {
        out.push('0');
        out.push('0');
    } else if n < 1000 {
        out.push('0');
    }
    push_dec(out, n);
    proof {
        assert(out@ =~= old(out)@ + pad4_of(n as int));
    }
}


/// The index of the first occurrence of `c` in `s`, or `s.len()` if there
/// is none.
pub open spec fn find_first(s: Seq<char>, c: char) -> int
    decreases s.len(),
{
    if s.len() == 0 {
        0
    } else if s[0] == c {
        0
    } else {
        1 + find_first(s.skip(1), c)
    }
}

pub proof fn lemma_find_first_le(s: Seq<char>, c: char)
    ensures
        0 <= find_first(s, c) <= s.len(),
        find_first(s, c) < s.len() ==> s[find_first(s, c)] == c,
    decreases s.len(),
{
    if s.len() > 0 && s[0] != c {
        lemma_find_first_le(s.skip(1), c);
    }
}

pub proof fn lemma_find_first_at(s: Seq<char>, c: char, i: int)
    requires
        0 <= i <= s.len(),
        forall|k: int| 0 <= k < i ==> s[k] != c,
        i == s.len() || s[i] == c,
    ensures
        find_first(s, c) == i,
    decreases i,
{
    if i == 0 {
    } else {
        assert(s[0] != c);
        assert forall|k: int| 0 <= k < i - 1 implies s.skip(1)[k] != c by {
            assert(s[k + 1] != c);
        }
        lemma_find_first_at(s.skip(1), c, i - 1);
    }
}

/// The position of the first occurrence of `c` in `s`, or `s`'s length.
pub fn first_index(s: &Vec<char>, c: char) -> (r: usize)
    ensures
        r as int == find_first(s@, c),
        r <= s@.len(),
{
    let n = s.len();
    let mut i: usize = 0;
    while i < n
        invariant
            n == s@.len(),
            i <= n,
            forall|k: int| 0 <= k < i ==> s@[k] != c,
        decreases n - i,
    {
        if s[i] == c {
            proof {
                lemma_find_first_at(s@, c, i as int);
            }
            return i;
        }
        i = i + 1;
    }
    proof {
        lemma_find_first_at(s@, c, n as int);
    }
    n
}

/// A copy of the characters of `s` between `from` and `to`.
pub fn seg(s: &Vec<char>, from: usize, to: usize) -> (r: Vec<char>)
    requires
        from <= to <= s@.len(),
    ensures
        r@ == s@.subrange(from as int, to as int),
{
    let mut out: Vec<char> = Vec::new();
    let mut i: usize = from;
    while i < to
        invariant
            from <= i <= to <= s@.len(),
            out@ == s@.subrange(from as int, i as int),
        decreases to - i,
    {
        out.push(s[i]);
        proof {
            assert(s@.subrange(from as int, i + 1) =~= s@.subrange(from as int, i as int).push(
                s@[i as int],
            ));
        }
        i = i + 1;
    }
    out
}


/// Whitespace as the telephone check reads it: space, tab, line and page
/// breaks.
pub open spec fn is_ws(c: char) -> bool {
    c == ' ' || c == '\t' || c == '\n' || c == '\r' || c as u32 == 11 || c as u32 == 12
}

/// Executable test for [`is_ws`].
pub fn ws_char(c: char) -> (r: bool)
    ensures
        r == is_ws(c),
{
    c == ' ' || c == '\t' || c == '\n' || c == '\r' || (c as u32) == 11 || (c as u32) == 12
}

/// The length of the whitespace run at the head of `s`.
pub open spec fn ws_run(s: Seq<char>) -> int
    decreases s.len(),
{
    if s.len() > 0 && is_ws(s[0]) {
        1 + ws_run(s.skip(1))
    } else {
        0
    }
}

pub proof fn lemma_ws_run_at(s: Seq<char>, i: int)
    requires
        0 <= i <= s.len(),
        forall|k: int| 0 <= k < i ==> is_ws(#[trigger] s[k]),
        i == s.len() || !is_ws(s[i]),
    ensures
        ws_run(s) == i,
    decreases i,
{
    if i == 0 {
    } else {
        assert(is_ws(s[0]));
        assert forall|k: int| 0 <= k < i - 1 implies is_ws(#[trigger] s.skip(1)[k]) by {
            assert(is_ws(s[k + 1]));
        }
        if i < s.len() {
            assert(s.skip(1)[i - 1] == s[i]);
        }
        lemma_ws_run_at(s.skip(1), i - 1);
    }
}

/// The length of the digit run at the head of `s`.
pub open spec fn digit_run(s: Seq<char>) -> int
    decreases s.len(),
{
    if s.len() > 0 && is_digit(s[0]) {
        1 + digit_run(s.skip(1))
    } else {
        0
    }
}

pub proof fn lemma_digit_run_at(s: Seq<char>, i: int)
    requires
        0 <= i <= s.len(),
        forall|k: int| 0 <= k < i ==> is_digit(#[trigger] s[k]),
        i == s.len() || !is_digit(s[i]),
    ensures
        digit_run(s) == i,
    decreases i,
{
    if i == 0 {
    } else {
        assert(is_digit(s[0]));
        assert forall|k: int| 0 <= k < i - 1 implies is_digit(#[trigger] s.skip(1)[k]) by {
            assert(is_digit(s[k + 1]));
        }
        if i < s.len() {
            assert(s.skip(1)[i - 1] == s[i]);
        }
        lemma_digit_run_at(s.skip(1), i - 1);
    }
}

/// Whether `s` is one or more digits with optional surrounding
/// whitespace, and nothing else.
pub open spec fn phone_ok(s: Seq<char>) -> bool {
    let a = ws_run(s);
    let b = a + digit_run(s.skip(a));
    b > a && ws_run(s.skip(b)) == s.len() - b
}

/// Executable check for [`phone_ok`].
pub fn phone_ok_chars(s: &Vec<char>) -> (r: bool)
    ensures
        r == phone_ok(s@),
{
    let n = s.len();
    let mut i: usize = 0;
    while i < n && ws_char(s[i])
        invariant
            i <= n,
            n == s@.len(),
            forall|k: int| 0 <= k < i ==> is_ws(#[trigger] s@[k]),
        decreases n - i,
    {
        i = i + 1;
    }
    let a = i;
    proof {
        lemma_ws_run_at(s@, a as int);
    }
    let mut i: usize = a;
    while i < n && digit_char(s[i])
        invariant
            a <= i <= n,
            n == s@.len(),
            forall|k: int| a <= k < i ==> is_digit(#[trigger] s@[k]),
        decreases n - i,
    {
        i = i + 1;
    }
    let b = i;
    proof {
        assert forall|k: int| 0 <= k < b - a implies is_digit(#[trigger] s@.skip(a as int)[k]) by {
            assert(is_digit(s@[k + a]));
        }
        if b < n {
            assert(s@.skip(a as int)[b - a] == s@[b as int]);
        }
        lemma_digit_run_at(s@.skip(a as int), b - a);
    }
    if b == a {
        return false;
    }
    let mut i: usize = b;
    while i < n && ws_char(s[i])
        invariant
            b <= i <= n,
            n == s@.len(),
            forall|k: int| b <= k < i ==> is_ws(#[trigger] s@[k]),
        decreases n - i,
    {
        i = i + 1;
    }
    proof {
        assert forall|k: int| 0 <= k < i - b implies is_ws(#[trigger] s@.skip(b as int)[k]) by {
            assert(is_ws(s@[k + b]));
        }
        if i < n {
            assert(s@.skip(b as int)[i - b] == s@[i as int]);
        }
        lemma_ws_run_at(s@.skip(b as int), i - b);
    }
    i == n
}

/// Pushes a copy of one cell, tracking the table model.
pub fn push_string(v: &mut Vec<String>, s: &String)
    ensures
        final(v).deep_view() == old(v).deep_view().push(s@),
        final(v)@.len() == old(v)@.len() + 1,
{
    let ghost pv = v@;
    let ghost pdv = v.deep_view();
    v.push(s.clone());
    proof {
        assert forall|k: int| 0 <= k < v@.len() implies v.deep_view()[k] == pdv.push(s@)[k] by {
            if k < pv.len() {
                assert(v@[k] == pv[k]);
                assert(pdv[k] == pv[k]@);
            } else {
                assert(v@[k]@ == s@);
            }
        }
        assert(v.deep_view() =~= pdv.push(s@));
    }
}

} // verus!
