//! Character-level string utilities: substring search, truncation, and
//! decimal formatting, with the two `String`-building primitives of std
//! taken on trust.

use vstd::prelude::*;

verus! {

/// Relies on `String::push`: appends one character to the end of the string.
#[verifier::external_body]
pub fn push_char(s: &mut String, c: char)
    ensures
        final(s)@ == old(s)@.push(c),
{
    s.push(c);
}

/// Relies on `String::push_str`: appends a string slice to the end of the string.
#[verifier::external_body]
pub fn push_str(s: &mut String, t: &str)
    ensures
        final(s)@ == old(s)@ + t@,
{
    s.push_str(t);
}

/// Relies on `core::str::from_utf8` and `str::to_owned`: decodes the bytes
/// as UTF-8, refusing invalid sequences.
#[verifier::external_body]
pub fn bytes_to_string(v: &[u8]) -> (r: Option<String>)
    ensures
        r is Some <==> vstd::utf8::valid_utf8(v@),
        r matches Some(s) ==> s@ == vstd::utf8::decode_utf8(v@),
{
    match core::str::from_utf8(v) {
        Ok(s) => Some(s.to_owned()),
        Err(_) => None,
    }
}

/// The characters of `s`, as a vector with constant-time indexing.
pub fn chars_of(s: &str) -> (v: Vec<char>)
    ensures
        v@ == s@,
{
    let n: usize = s.unicode_len();
    let mut v: Vec<char> = Vec::new();
    let mut i: usize = 0;
    while i < n
        invariant
            i <= n,
            n == s@.len(),
            v@ == s@.subrange(0, i as int),
        decreases n - i,
    {
        v.push(s.get_char(i));
        i = i + 1;
    }
    proof {
        assert(v@ =~= s@);
    }
    v
}

/// A string holding exactly the characters of `v`.
pub fn string_of(v: &Vec<char>) -> (s: String)
    ensures
        s@ == v@,
{
    let mut s = String::new();
    let mut i: usize = 0;
    while i < v.len()
        invariant
            i <= v@.len(),
            s@ == v@.subrange(0, i as int),
        decreases v@.len() - i,
    {
        push_char(&mut s, v[i]);
        i = i + 1;
    }
    proof {
        assert(s@ =~= v@);
    }
    s
}

/// Whether two string slices hold the same characters.
pub fn str_eq(a: &str, b: &str) -> (r: bool)
    ensures
        r <==> a@ == b@,
{
    let na: usize = a.unicode_len();
    let nb: usize = b.unicode_len();
    if na != nb {
        return false;
    }
    let mut i: usize = 0;
    while i < na
        invariant
            i <= na,
            na == a@.len() && na == b@.len(),
            forall|k: int| 0 <= k < i ==> a@[k] == b@[k],
        decreases na - i,
    {
        if a.get_char(i) != b.get_char(i) {
            return false;
        }
        i = i + 1;
    }
    proof {
        assert(a@ =~= b@);
    }
    true
}

/// The lowercase form of a string, whatever the case-folding rules make of
/// it; a function of the characters alone.
pub uninterp spec fn lower_of(s: Seq<char>) -> Seq<char>;

/// Relies on `str::to_lowercase`: the result depends on the characters alone,
/// and an empty string stays empty.
#[verifier::external_body]
pub fn to_lowercase(s: &str) -> (r: String)
    ensures
        r@ == lower_of(s@),
        s@.len() == 0 ==> r@.len() == 0,
{
    s.to_lowercase()
}

/// `pat` occurs in `hay` starting at position `i`.
pub open spec fn match_at(hay: Seq<char>, pat: Seq<char>, i: int) -> bool {
    0 <= i && i + pat.len() <= hay.len() && hay.subrange(i, i + pat.len()) == pat
}

/// The first position at or after `i` where `pat` occurs in `hay`.
pub open spec fn find_from(hay: Seq<char>, pat: Seq<char>, i: int) -> Option<int>
    recommends
        0 <= i,
    decreases hay.len() - i when 0 <= i
{
    if i + pat.len() > hay.len() {
        None
    } else if pat.len() == 0 || match_at(hay, pat, i) {
        Some(i)
    } else {
        find_from(hay, pat, i + 1)
    }
}

proof fn lemma_find_from_props(hay: Seq<char>, pat: Seq<char>, i: int)
    requires
        0 <= i,
    ensures
        match find_from(hay, pat, i) {
            Some(j) => i <= j && match_at(hay, pat, j)
                && forall|k: int| i <= k < j ==> !match_at(hay, pat, k),
            None => forall|k: int| i <= k ==> !match_at(hay, pat, k),
        },
    decreases hay.len() - i,
{
    if i + pat.len() > hay.len() {
    } else if pat.len() == 0 || match_at(hay, pat, i) {
        assert(hay.subrange(i, i + pat.len()) =~= pat) by {
            if pat.len() == 0 {
                assert(hay.subrange(i, i) =~= pat);
            }
        }
    } else {
        lemma_find_from_props(hay, pat, i + 1);
    }
}

/// A found occurrence lies within the text.
pub proof fn lemma_find_bounds(hay: Seq<char>, pat: Seq<char>, i: int)
    requires
        0 <= i,
    ensures
        match find_from(hay, pat, i) {
            Some(j) => i <= j && j + pat.len() <= hay.len(),
            None => true,
        },
{
    lemma_find_from_props(hay, pat, i);
    match find_from(hay, pat, i) {
        Some(j) => {
            assert(match_at(hay, pat, j) || pat.len() == 0);
        },
        None => {},
    }
}

/// Whether two character vectors match over a window, then search: the first
/// occurrence of `pat` in `hay` at or after `from`.
pub fn find_chars_from(hay: &Vec<char>, pat: &Vec<char>, from: usize) -> (r: Option<usize>)
    ensures
        r matches Some(j) ==> from <= j && Some(j as int) == find_from(hay@, pat@, from as int),
        r is None ==> find_from(hay@, pat@, from as int) is None,
{
    let mut i: usize = from;
    loop
        invariant
            from <= i,
            find_from(hay@, pat@, from as int) == find_from(hay@, pat@, i as int),
        decreases hay@.len() + 1 - i,
    {
        if i > hay.len() || pat.len() > hay.len() - i {
            return None;
        }
        // test for a match of pat at position i
        let mut k: usize = 0;
        let mut matched: bool = true;
        while k < pat.len()
            invariant
                k <= pat@.len(),
                i + pat@.len() <= hay@.len() <= usize::MAX,
                matched <==> hay@.subrange(i as int, i + k) =~= pat@.subrange(0, k as int),
            decreases pat@.len() - k,
        {
            let same: bool = hay[i + k] == pat[k];
            proof {
                assert(hay@.subrange(i as int, i + k + 1).drop_last() =~= hay@.subrange(
                    i as int,
                    i + k,
                ));
                assert(pat@.subrange(0, k + 1).drop_last() =~= pat@.subrange(0, k as int));
                assert(hay@.subrange(i as int, i + k + 1).last() == hay@[i + k]);
                assert(pat@.subrange(0, k + 1).last() == pat@[k as int]);
                if matched && same {
                    assert(hay@.subrange(i as int, i + k + 1) =~= pat@.subrange(0, k + 1));
                }
            }
            matched = matched && same;
            k = k + 1;
        }
        proof {
            assert(pat@.subrange(0, pat@.len() as int) =~= pat@);
            assert(hay@.subrange(i as int, i + pat@.len()) == hay@.subrange(
                i as int,
                i + pat@.len() as int,
            ));
        }
        if matched {
            return Some(i);
        }
        i = i + 1;
    }
}

/// Whether `pat` occurs anywhere in `hay`.
pub fn contains_chars(hay: &Vec<char>, pat: &Vec<char>) -> (r: bool)
    ensures
        r <==> find_from(hay@, pat@, 0) is Some,
{
    find_chars_from(hay, pat, 0).is_some()
}

/// Whether `pat` occurs anywhere in the string `hay`, as a spec predicate.
pub open spec fn contains_seq(hay: Seq<char>, pat: Seq<char>) -> bool {
    find_from(hay, pat, 0) is Some
}

/// Whether the user-agent string announces a hand-held device.
pub fn is_mobile_ua(ua: &str) -> (r: bool)
    ensures
        r <==> contains_seq(ua@, "iPhone"@) || contains_seq(ua@, "iPad"@) || contains_seq(
            ua@,
            "Android"@,
        ) || contains_seq(ua@, "Mobile"@),
{
    let hay = chars_of(ua);
    contains_chars(&hay, &chars_of("iPhone")) || contains_chars(&hay, &chars_of("iPad"))
        || contains_chars(&hay, &chars_of("Android")) || contains_chars(&hay, &chars_of("Mobile"))
}

/// The task identifier embedded as `<task-id>...</task-id>`, if any: the text
/// between the first opening tag and the first closing tag after it.
pub open spec fn spec_task_id(s: Seq<char>) -> Option<Seq<char>> {
    match find_from(s, "<task-id>"@, 0) {
        None => None,
        Some(i) => {
            let start = i + "<task-id>"@.len();
            match find_from(s, "</task-id>"@, start) {
                None => None,
                Some(j) => Some(s.subrange(start, j)),
            }
        },
    }
}

/// Extract the task identifier embedded in a task-notification text.
pub fn extract_task_id(text: &str) -> (r: Option<String>)
    ensures
        r is Some <==> spec_task_id(text@) is Some,
        r matches Some(t) ==> Some(t@) == spec_task_id(text@),
{
    let hay = chars_of(text);
    let open_tag = chars_of("<task-id>");
    let close_tag = chars_of("</task-id>");
    match find_chars_from(&hay, &open_tag, 0) {
        None => None,
        Some(i) => {
            proof {
                lemma_find_from_props(hay@, open_tag@, 0);
            }
            let hay_len: usize = hay.len();
            let start = i + open_tag.len();
            match find_chars_from(&hay, &close_tag, start) {
                None => None,
                Some(j) => {
                    proof {
                        lemma_find_from_props(hay@, close_tag@, start as int);
                    }
                    let mut out: Vec<char> = Vec::new();
                    let mut k: usize = start;
                    while k < j
                        invariant
                            start <= k <= j,
                            j <= hay@.len(),
                            out@ == hay@.subrange(start as int, k as int),
                        decreases j - k,
                    {
                        out.push(hay[k]);
                        k = k + 1;
                    }
                    proof {
                        assert(out@ =~= hay@.subrange(start as int, j as int));
                    }
                    Some(string_of(&out))
                },
            }
        },
    }
}

/// Lexicographic order on character sequences, by code point; on UTF-8
/// encodings this is exactly byte order.
pub open spec fn str_le(a: Seq<char>, b: Seq<char>) -> bool
    decreases a.len(),
{
    if a.len() == 0 {
        true
    } else if b.len() == 0 {
        false
    } else if a.first() == b.first() {
        str_le(a.drop_first(), b.drop_first())
    } else {
        (a.first() as u32) < (b.first() as u32)
    }
}

/// The order is reflexive.
pub proof fn lemma_str_le_refl(a: Seq<char>)
    ensures
        str_le(a, a),
    decreases a.len(),
{
    if a.len() > 0 {
        lemma_str_le_refl(a.drop_first());
    }
}

/// The order is total: distinct characters cast to distinct code points.
pub proof fn lemma_str_le_total(a: Seq<char>, b: Seq<char>)
    ensures
        str_le(a, b) || str_le(b, a),
    decreases a.len(),
{
    if a.len() == 0 {
    } else if b.len() == 0 {
    } else if a.first() == b.first() {
        lemma_str_le_total(a.drop_first(), b.drop_first());
    } else {
        vstd::utf8::char_u32_cast(a.first(), a.first() as u32);
        vstd::utf8::char_u32_cast(b.first(), b.first() as u32);
        assert((a.first() as u32) != (b.first() as u32));
    }
}

/// The order is transitive.
pub proof fn lemma_str_le_trans(a: Seq<char>, b: Seq<char>, c: Seq<char>)
    requires
        str_le(a, b),
        str_le(b, c),
    ensures
        str_le(a, c),
    decreases a.len(),
{
    if a.len() == 0 {
    } else if b.len() == 0 {
    } else if c.len() == 0 {
    } else if a.first() == b.first() && b.first() == c.first() {
        lemma_str_le_trans(a.drop_first(), b.drop_first(), c.drop_first());
    }
}

/// Compare two string slices in code-point order.
pub fn str_le_exec(a: &str, b: &str) -> (r: bool)
    ensures
        r == str_le(a@, b@),
{
    let ac = chars_of(a);
    let bc = chars_of(b);
    let mut i: usize = 0;
    proof {
        assert(a@.skip(0) =~= a@);
        assert(b@.skip(0) =~= b@);
    }
    loop
        invariant
            i <= ac@.len() && i <= bc@.len(),
            ac@ == a@ && bc@ == b@,
            str_le(a@, b@) == str_le(a@.skip(i as int), b@.skip(i as int)),
            str_le(b@, a@) == str_le(b@.skip(i as int), a@.skip(i as int)),
        decreases ac@.len() - i,
    {
        if i >= ac.len() {
            proof {
                assert(a@.skip(i as int).len() == 0);
            }
            return true;
        }
        if i >= bc.len() {
            proof {
                assert(b@.skip(i as int).len() == 0);
                assert(a@.skip(i as int).len() > 0);
            }
            return false;
        }
        let x = ac[i];
        let y = bc[i];
        proof {
            assert(a@.skip(i as int).first() == a@[i as int]);
            assert(b@.skip(i as int).first() == b@[i as int]);
            assert(a@.skip(i as int).drop_first() =~= a@.skip(i + 1));
            assert(b@.skip(i as int).drop_first() =~= b@.skip(i + 1));
        }
        if x != y {
            return (x as u32) < (y as u32);
        }
        i = i + 1;
    }
}

/// The first `n` characters of `s`, or all of `s` when it is shorter.
pub open spec fn spec_truncate(s: Seq<char>, n: int) -> Seq<char> {
    if s.len() <= n {
        s
    } else {
        s.subrange(0, n)
    }
}

/// Truncate a string to at most `n` characters.
pub fn truncate_chars(s: &str, n: usize) -> (r: String)
    ensures
        r@ == spec_truncate(s@, n as int),
{
    let len: usize = s.unicode_len();
    if len <= n {
        s.to_owned()
    } else {
        s.substring_char(0, n).to_owned()
    }
}

/// An ASCII decimal digit.
pub open spec fn is_digit(b: u8) -> bool {
    48 <= b <= 57
}

/// The value of a sequence of decimal digits, most significant first.
pub open spec fn dec_value(s: Seq<u8>) -> int
    decreases s.len(),
{
    if s.len() == 0 {
        0
    } else {
        dec_value(s.drop_last()) * 10 + (s.last() - 48)
    }
}

/// Parse a non-empty, all-digit byte string as a decimal number, refusing
/// anything else and values that do not fit in `u64`.
pub fn parse_u64_dec(s: &[u8]) -> (r: Option<u64>)
    ensures
        r matches Some(n) ==> s@.len() > 0 && (forall|i: int|
            0 <= i < s@.len() ==> is_digit(s@[i])) && n == dec_value(s@),
        r is None ==> s@.len() == 0 || (exists|i: int| 0 <= i < s@.len() && !is_digit(s@[i]))
            || dec_value(s@) > u64::MAX,
{
    if s.len() == 0 {
        return None;
    }
    let mut acc: u64 = 0;
    let mut i: usize = 0;
    while i < s.len()
        invariant
            i <= s@.len(),
            forall|k: int| 0 <= k < i ==> is_digit(s@[k]),
            acc == dec_value(s@.subrange(0, i as int)),
        decreases s@.len() - i,
    {
        let b: u8 = *vstd::slice::slice_index_get(s, i);
        if b < 48 || b > 57 {
            return None;
        }
        let d: u64 = (b - 48) as u64;
        let wide: u128 = acc as u128 * 10 + d as u128;
        proof {
            assert(s@.subrange(0, i as int) =~= s@.subrange(0, i + 1).drop_last());
            assert(s@.subrange(0, i + 1).last() == b);
            assert(dec_value(s@.subrange(0, i + 1)) == wide);
        }
        if wide > u64::MAX as u128 {
            proof {
                if forall|k: int| 0 <= k < s@.len() ==> is_digit(s@[k]) {
                    lemma_dec_value_monotone(s@, i as int);
                }
            }
            return None;
        }
        acc = wide as u64;
        i = i + 1;
    }
    proof {
        assert(s@.subrange(0, s@.len() as int) =~= s@);
    }
    Some(acc)
}

/// A digit string's value is never negative.
proof fn lemma_dec_value_nonneg(s: Seq<u8>)
    requires
        forall|k: int| 0 <= k < s.len() ==> is_digit(s[k]),
    ensures
        dec_value(s) >= 0,
    decreases s.len(),
{
    if s.len() > 0 {
        lemma_dec_value_nonneg(s.drop_last());
    }
}

/// A digit string's value only grows as more digits follow it.
proof fn lemma_dec_value_monotone(s: Seq<u8>, i: int)
    requires
        0 <= i < s.len(),
        forall|k: int| 0 <= k < s.len() ==> is_digit(s[k]),
    ensures
        dec_value(s) >= dec_value(s.subrange(0, i + 1)),
    decreases s.len() - i,
{
    if i + 1 == s.len() {
        assert(s.subrange(0, i + 1) =~= s);
    } else {
        lemma_dec_value_monotone(s, i + 1);
        assert(s.subrange(0, i + 2).drop_last() =~= s.subrange(0, i + 1));
        assert(forall|k: int|
            0 <= k < s.subrange(0, i + 1).len() ==> is_digit(#[trigger] s.subrange(0, i + 1)[k]));
        lemma_dec_value_nonneg(s.subrange(0, i + 1));
        assert(dec_value(s.subrange(0, i + 2)) >= dec_value(s.subrange(0, i + 1)));
    }
}

/// The value of reversed digits `s` placed below the digits of `rest`.
spec fn rev_value(s: Seq<u8>, rest: int) -> int
    decreases s.len(),
{
    if s.len() == 0 {
        rest
    } else {
        rev_value(s.drop_first(), rest) * 10 + (s.first() - 48)
    }
}

proof fn lemma_rev_value_push(s: Seq<u8>, x: u8, r: int)
    ensures
        rev_value(s.push(x), r) == rev_value(s, r * 10 + (x - 48)),
    decreases s.len(),
{
    if s.len() == 0 {
        assert(s.push(x).drop_first() =~= Seq::<u8>::empty());
        assert(s.push(x).first() == x);
        assert(rev_value(s.push(x), r) == rev_value(Seq::<u8>::empty(), r) * 10 + (x - 48));
    } else {
        assert(s.push(x).drop_first() =~= s.drop_first().push(x));
        assert(s.push(x).first() == s.first());
        lemma_rev_value_push(s.drop_first(), x, r);
        assert(rev_value(s.push(x), r) == rev_value(s.drop_first().push(x), r) * 10 + (s.first()
            - 48));
        assert(rev_value(s, r * 10 + (x - 48)) == rev_value(s.drop_first(), r * 10 + (x - 48)) * 10
            + (s.first() - 48));
    }
}

/// Some digit string whose value is `n`; a witness relating the two folds.
spec fn prefix_digits(n: int) -> Seq<u8>
    decreases n when n >= 0
{
    if n <= 0 {
        Seq::<u8>::empty()
    } else {
        prefix_digits(n / 10).push((n % 10 + 48) as u8)
    }
}

proof fn lemma_prefix_digits_value(n: int)
    requires
        n >= 0,
    ensures
        dec_value(prefix_digits(n)) == n,
    decreases n,
{
    if n > 0 {
        lemma_prefix_digits_value(n / 10);
        assert(prefix_digits(n).drop_last() =~= prefix_digits(n / 10));
        assert(prefix_digits(n).last() == n % 10 + 48);
    }
}

proof fn lemma_rev_value_general(s: Seq<u8>, rest: int)
    requires
        rest >= 0,
    ensures
        dec_value(prefix_digits(rest) + s.reverse()) == rev_value(s, rest),
    decreases s.len(),
{
    if s.len() == 0 {
        assert(prefix_digits(rest) + s.reverse() =~= prefix_digits(rest));
        lemma_prefix_digits_value(rest);
    } else {
        lemma_rev_value_general(s.drop_first(), rest);
        assert((prefix_digits(rest) + s.reverse()).drop_last() =~= prefix_digits(rest)
            + s.drop_first().reverse());
        assert((prefix_digits(rest) + s.reverse()).last() == s.first());
    }
}

proof fn lemma_rev_value_is_dec(s: Seq<u8>)
    ensures
        dec_value(s.reverse()) == rev_value(s, 0),
{
    lemma_rev_value_general(s, 0);
    assert(prefix_digits(0) + s.reverse() =~= s.reverse());
}

/// Render a number as decimal digits, most significant first.
pub fn format_u64_dec(n: u64) -> (r: Vec<u8>)
    ensures
        r@.len() > 0,
        forall|i: int| 0 <= i < r@.len() ==> is_digit(r@[i]),
        dec_value(r@) == n,
{
    let mut rev: Vec<u8> = Vec::new();
    let mut rest: u64 = n;
    loop
        invariant_except_break
            forall|k: int| 0 <= k < rev@.len() ==> is_digit(rev@[k]),
            rev_value(rev@, rest as int) == n,
        ensures
            rev@.len() > 0,
            forall|k: int| 0 <= k < rev@.len() ==> is_digit(rev@[k]),
            rev_value(rev@, 0) == n,
        decreases rest,
    {
        let d: u8 = (rest % 10) as u8;
        let r2: u64 = rest / 10;
        proof {
            lemma_rev_value_push(rev@, (d + 48) as u8, r2 as int);
        }
        rev.push(d + 48);
        if r2 == 0 {
            break;
        }
        rest = r2;
    }
    let mut out: Vec<u8> = Vec::new();
    let mut i: usize = rev.len();
    proof {
        assert(out@ =~= rev@.skip(i as int).reverse());
    }
    while i > 0
        invariant
            i <= rev@.len(),
            forall|k: int| 0 <= k < rev@.len() ==> is_digit(rev@[k]),
            out@ =~= rev@.skip(i as int).reverse(),
            rev_value(rev@, 0) == n,
            rev@.len() > 0,
        decreases i,
    {
        i = i - 1;
        let b: u8 = rev[i];
        out.push(b);
        proof {
            assert(out@ =~= rev@.skip(i as int).reverse());
        }
    }
    proof {
        assert(rev@.skip(0) =~= rev@);
        lemma_rev_value_is_dec(rev@);
        assert(out@ =~= rev@.reverse());
    }
    out
}

} // verus!
