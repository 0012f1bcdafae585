//! Small verified string utilities: character search, splitting,
//! trimming, joining and decimal parsing, plus named results for the
//! Unicode case and whitespace tables that std implements.

use vstd::prelude::*;

verus! {

/// The Unicode `White_Space` property of a character, as decided by
/// `char::is_whitespace`.
pub uninterp spec fn ws_char(c: char) -> bool;

/// The lowercase form of a string, as computed by `str::to_lowercase`.
pub uninterp spec fn lower_of(s: Seq<char>) -> Seq<char>;

/// The uppercase form of a string, as computed by `str::to_uppercase`.
pub uninterp spec fn upper_of(s: Seq<char>) -> Seq<char>;

/// The uppercase form of one character, as computed by
/// `char::to_uppercase` (possibly several characters long).
pub uninterp spec fn upper_char(c: char) -> Seq<char>;

/// Relies on char::is_whitespace: whether the character has the
/// Unicode `White_Space` property, a fixed table.
pub assume_specification[ char::is_whitespace ](c: char) -> (r: bool)
    ensures
        r == ws_char(c),
;

/// Relies on str::to_lowercase: the lowercase equivalent of the
/// string, a function of its characters alone.
#[verifier::external_body]
pub fn str_lower(s: &str) -> (r: String)
    ensures
        r@ == lower_of(s@),
        s@.len() == 0 ==> r@.len() == 0,
{
    s.to_lowercase()
}

/// Relies on str::to_uppercase: the uppercase equivalent of the
/// string, a function of its characters alone.
#[verifier::external_body]
pub fn str_upper(s: &str) -> (r: String)
    ensures
        r@ == upper_of(s@),
        s@.len() == 0 ==> r@.len() == 0,
{
    s.to_uppercase()
}

/// Relies on char::to_uppercase: the uppercase mapping of one
/// character, collected into a string.
#[verifier::external_body]
pub fn char_upper_string(c: char) -> (r: String)
    ensures
        r@ == upper_char(c),
{
    c.to_uppercase().collect()
}

/// True when the sequence of characters `sub` occurs contiguously in `sup`.
pub open spec fn seq_contains_sub(sup: Seq<char>, sub: Seq<char>) -> bool {
    exists|i: int|
        0 <= i && i + sub.len() <= sup.len() && #[trigger] sup.subrange(i, i + sub.len() as int)
            == sub
}

/// Character-for-character equality of two string slices.
pub fn str_eq(a: &str, b: &str) -> (r: bool)
    ensures
        r == (a@ == b@),
{
    let la = a.unicode_len();
    let lb = b.unicode_len();
    if la != lb {
        proof {
            assert(a@ != b@) by {
                assert(a@.len() != b@.len());
            }
        }
        return false;
    }
    let mut i: usize = 0;
    while i < la
        invariant
            la == a@.len(),
            la == b@.len(),
            0 <= i <= la,
            forall|j: int| 0 <= j < i ==> a@[j] == b@[j],
        decreases la - i,
    {
        if a.get_char(i) != b.get_char(i) {
            return false;
        }
        i += 1;
    }
    proof {
        assert(a@ =~= b@);
    }
    true
}

/// The position of the first occurrence of `sep` in `s`, if any.
pub open spec fn find_char_spec(s: Seq<char>, sep: char) -> Option<int>
    decreases s.len(),
{
    if s.len() == 0 {
        None
    } else if s[0] == sep {
        Some(0)
    } else {
        match find_char_spec(s.skip(1), sep) {
            None => None,
            Some(i) => Some(i + 1),
        }
    }
}

/// What `find_char_spec` returns: the least index holding `sep`, or
/// nothing when `sep` does not occur.
pub proof fn lemma_find_char_spec(s: Seq<char>, sep: char)
    ensures
        match find_char_spec(s, sep) {
            None => forall|j: int| 0 <= j < s.len() ==> s[j] != sep,
            Some(i) => 0 <= i < s.len() && s[i] == sep && forall|j: int| 0 <= j < i ==> s[j] != sep,
        },
    decreases s.len(),
{
    if s.len() > 0 && s[0] != sep {
        lemma_find_char_spec(s.skip(1), sep);
        match find_char_spec(s.skip(1), sep) {
            None => {
                assert forall|j: int| 0 <= j < s.len() implies s[j] != sep by {
                    if j > 0 {
                        assert(s.skip(1)[j - 1] == s[j]);
                    }
                }
            },
            Some(i) => {
                assert(s.skip(1)[i] == s[i + 1]);
                assert forall|j: int| 0 <= j < i + 1 implies s[j] != sep by {
                    if j > 0 {
                        assert(s.skip(1)[j - 1] == s[j]);
                    }
                }
            },
        }
    }
}

/// Finds the first occurrence of `sep` in `s`.
pub fn find_char(s: &str, sep: char) -> (r: Option<usize>)
    ensures
        match r {
            None => find_char_spec(s@, sep) is None,
            Some(i) => find_char_spec(s@, sep) == Some(i as int),
        },
{
    let n = s.unicode_len();
    let mut i: usize = 0;
    while i < n
        invariant
            n == s@.len(),
            0 <= i <= n,
            forall|j: int| 0 <= j < i ==> s@[j] != sep,
        decreases n - i,
    {
        if s.get_char(i) == sep {
            proof {
                lemma_find_char_spec(s@, sep);
            }
            return Some(i);
        }
        i += 1;
    }
    proof {
        lemma_find_char_spec(s@, sep);
    }
    None
}

/// True when `c` occurs in `s`.
pub open spec fn seq_contains_char(s: Seq<char>, c: char) -> bool {
    exists|i: int| 0 <= i < s.len() && #[trigger] s[i] == c
}

/// True when `c` occurs in `s`.
pub fn contains_char(s: &str, c: char) -> (r: bool)
    ensures
        r == seq_contains_char(s@, c),
{
    match find_char(s, c) {
        Some(i) => {
            proof {
                lemma_find_char_spec(s@, c);
            }
            true
        },
        None => {
            proof {
                lemma_find_char_spec(s@, c);
            }
            false
        },
    }
}

/// The segments of `s` between occurrences of `sep`; splitting never
/// yields an empty list (a string without `sep` is one segment).
pub open spec fn split_char_spec(s: Seq<char>, sep: char) -> Seq<Seq<char>>
    decreases s.len(),
    via split_char_spec_dec
{
    match find_char_spec(s, sep) {
        None => seq![s],
        Some(i) => seq![s.subrange(0, i)] + split_char_spec(s.skip(i + 1), sep),
    }
}

#[via_fn]
proof fn split_char_spec_dec(s: Seq<char>, sep: char) {
    lemma_find_char_spec(s, sep);
}

/// Splits `s` on every occurrence of `sep`.
pub fn split_char(s: &str, sep: char) -> (r: Vec<String>)
    ensures
        r.deep_view() == split_char_spec(s@, sep),
        r.len() >= 1,
    decreases s@.len(),
{
    proof {
        lemma_find_char_spec(s@, sep);
    }
    match find_char(s, sep) {
        None => {
            let mut v: Vec<String> = Vec::new();
            v.push(s.to_owned());
            proof {
                assert(v.deep_view() =~= split_char_spec(s@, sep));
            }
            v
        },
        Some(i) => {
            let n = s.unicode_len();
            let head = s.substring_char(0, i).to_owned();
            let tail = s.substring_char(i + 1, n);
            let mut r = split_char(tail, sep);
            r.insert(0, head);
            proof {
                assert(tail@ == s@.skip(i + 1));
                assert(r.deep_view() =~= split_char_spec(s@, sep));
            }
            r
        },
    }
}

/// The index of the first character of `s` that is not whitespace
/// (the length of `s` when every character is).
pub open spec fn trim_start_idx(s: Seq<char>) -> int
    decreases s.len(),
{
    if s.len() == 0 {
        0
    } else if ws_char(s[0]) {
        1 + trim_start_idx(s.skip(1))
    } else {
        0
    }
}

/// One past the index of the last character of `s` that is not
/// whitespace (zero when every character is).
pub open spec fn trim_end_idx(s: Seq<char>) -> int
    decreases s.len(),
{
    if s.len() == 0 {
        0
    } else if ws_char(s[s.len() - 1]) {
        trim_end_idx(s.take(s.len() - 1))
    } else {
        s.len() as int
    }
}

/// `s` with leading and trailing whitespace removed, as `str::trim`
/// computes it.
pub open spec fn trim_spec(s: Seq<char>) -> Seq<char> {
    if trim_start_idx(s) >= trim_end_idx(s) {
        Seq::empty()
    } else {
        s.subrange(trim_start_idx(s), trim_end_idx(s))
    }
}

pub proof fn lemma_trim_start_idx(s: Seq<char>)
    ensures
        0 <= trim_start_idx(s) <= s.len(),
        forall|j: int| 0 <= j < trim_start_idx(s) ==> ws_char(s[j]),
        trim_start_idx(s) < s.len() ==> !ws_char(s[trim_start_idx(s)]),
    decreases s.len(),
{
    if s.len() > 0 && ws_char(s[0]) {
        lemma_trim_start_idx(s.skip(1));
        let i = trim_start_idx(s);
        assert forall|j: int| 0 <= j < i implies ws_char(s[j]) by {
            if j > 0 {
                assert(s.skip(1)[j - 1] == s[j]);
            }
        }
        if i < s.len() {
            assert(s.skip(1)[i - 1] == s[i]);
        }
    }
}

pub proof fn lemma_trim_end_idx(s: Seq<char>)
    ensures
        0 <= trim_end_idx(s) <= s.len(),
        forall|j: int| trim_end_idx(s) <= j < s.len() ==> ws_char(s[j]),
        trim_end_idx(s) > 0 ==> !ws_char(s[trim_end_idx(s) - 1]),
    decreases s.len(),
{
    if s.len() > 0 && ws_char(s[s.len() - 1]) {
        lemma_trim_end_idx(s.take(s.len() - 1));
        let e = trim_end_idx(s);
        assert forall|j: int| e <= j < s.len() implies ws_char(s[j]) by {
            if j < s.len() - 1 {
                assert(s.take(s.len() - 1)[j] == s[j]);
            }
        }
        if e > 0 {
            assert(s.take(s.len() - 1)[e - 1] == s[e - 1]);
        }
    }
}

/// Removes leading and trailing whitespace from `s`.
pub fn trim_str<'a>(s: &'a str) -> (r: &'a str)
    ensures
        r@ == trim_spec(s@),
{
    proof {
        lemma_trim_start_idx(s@);
        lemma_trim_end_idx(s@);
    }
    let n = s.unicode_len();
    let mut start: usize = 0;
    while start < n && s.get_char(start).is_whitespace()
        invariant
            n == s@.len(),
            0 <= start <= n,
            forall|j: int| 0 <= j < start ==> ws_char(s@[j]),
        decreases n - start,
    {
        start += 1;
    }
    let mut end: usize = n;
    while end > start && s.get_char(end - 1).is_whitespace()
        invariant
            n == s@.len(),
            start <= end <= n,
            forall|j: int| end <= j < n ==> ws_char(s@[j]),
        decreases end,
    {
        end -= 1;
    }
    let r = s.substring_char(start, end);
    proof {
        // The scan from the left stopped exactly at trim_start_idx.
        assert(start == trim_start_idx(s@)) by {
            let ti = trim_start_idx(s@);
            if start < ti {
                assert(ws_char(s@[start as int]));
            }
            if start > ti {
                assert(ws_char(s@[ti]));
            }
        }
        if start == n {
            assert(r@ =~= trim_spec(s@));
        } else {
            // Some character is not whitespace, so the right scan
            // stopped exactly at trim_end_idx.
            assert(end == trim_end_idx(s@)) by {
                let te = trim_end_idx(s@);
                if end < te {
                    assert(ws_char(s@[end as int]));
                }
                if end > te {
                    assert(ws_char(s@[end - 1]));
                }
            }
            assert(r@ =~= trim_spec(s@));
        }
    }
    r
}

/// The parts joined with `sep` between consecutive parts.
pub open spec fn join_sep_spec(parts: Seq<Seq<char>>, sep: Seq<char>) -> Seq<char>
    decreases parts.len(),
{
    if parts.len() == 0 {
        Seq::empty()
    } else if parts.len() == 1 {
        parts[0]
    } else {
        parts[0] + sep + join_sep_spec(parts.skip(1), sep)
    }
}

pub proof fn lemma_join_sep_push(parts: Seq<Seq<char>>, sep: Seq<char>, x: Seq<char>)
    ensures
        parts.len() == 0 ==> join_sep_spec(parts.push(x), sep) == x,
        parts.len() >= 1 ==> join_sep_spec(parts.push(x), sep) == join_sep_spec(parts, sep) + sep
            + x,
    decreases parts.len(),
{
    if parts.len() == 0 {
        assert(join_sep_spec(parts.push(x), sep) == parts.push(x)[0]);
        assert(parts.push(x)[0] == x);
    } else if parts.len() == 1 {
        assert(parts.push(x).skip(1) =~= seq![x]);
        assert(parts.push(x)[0] == parts[0]);
        assert(join_sep_spec(seq![x], sep) == x);
        assert(join_sep_spec(parts.push(x), sep) == parts[0] + sep + x);
    } else {
        lemma_join_sep_push(parts.skip(1), sep, x);
        assert(parts.push(x).skip(1) =~= parts.skip(1).push(x));
        assert(parts.push(x)[0] == parts[0]);
        assert(join_sep_spec(parts, sep) + sep + x =~= parts[0] + sep + (join_sep_spec(
            parts.skip(1),
            sep,
        ) + sep + x));
    }
}

/// Joins the parts with `sep` between consecutive parts.
pub fn join_with(parts: &Vec<String>, sep: &str) -> (r: String)
    ensures
        r@ == join_sep_spec(parts.deep_view(), sep@),
{
    if parts.len() == 0 {
        return String::new();
    }
    let mut r: String = parts[0].clone();
    let mut i: usize = 1;
    while i < parts.len()
        invariant
            1 <= i <= parts.len(),
            parts.len() >= 1,
            r@ == join_sep_spec(parts.deep_view().take(i as int), sep@),
        decreases parts.len() - i,
    {
        r.append(sep);
        r.append(parts[i].as_str());
        proof {
            let dv = parts.deep_view();
            lemma_join_sep_push(dv.take(i as int), sep@, dv[i as int]);
            assert(dv.take(i + 1) =~= dv.take(i as int).push(dv[i as int]));
        }
        i += 1;
    }
    proof {
        assert(parts.deep_view().take(parts.len() as int) =~= parts.deep_view());
    }
    r
}

/// True when `needle` equals the characters of `hay` starting at `i`.
fn match_at(hay: &str, needle: &str, i: usize) -> (r: bool)
    requires
        i + needle@.len() <= hay@.len(),
        hay@.len() <= usize::MAX,
    ensures
        r == (hay@.subrange(i as int, i + needle@.len() as int) == needle@),
{
    let m = needle.unicode_len();
    let mut j: usize = 0;
    while j < m
        invariant
            m == needle@.len(),
            i + m <= hay@.len(),
            hay@.len() <= usize::MAX,
            0 <= j <= m,
            forall|t: int| 0 <= t < j ==> hay@[i + t] == needle@[t],
        decreases m - j,
    {
        if hay.get_char(i + j) != needle.get_char(j) {
            proof {
                assert(hay@.subrange(i as int, i + needle@.len() as int)[j as int] != needle@[
                j as int]);
            }
            return false;
        }
        j += 1;
    }
    proof {
        assert(hay@.subrange(i as int, i + needle@.len() as int) =~= needle@);
    }
    true
}

/// True when `needle` occurs contiguously in `hay`.
pub fn contains_substr(hay: &str, needle: &str) -> (r: bool)
    ensures
        r == seq_contains_sub(hay@, needle@),
{
    let n = hay.unicode_len();
    let m = needle.unicode_len();
    if m > n {
        return false;
    }
    if m == 0 {
        proof {
            assert(hay@.subrange(0, 0 + needle@.len() as int) =~= needle@);
        }
        return true;
    }
    let mut i: usize = 0;
    while i <= n - m
        invariant
            n == hay@.len(),
            m == needle@.len(),
            1 <= m <= n,
            0 <= i <= n - m + 1,
            forall|k: int|
                0 <= k < i ==> #[trigger] hay@.subrange(k, k + needle@.len() as int) != needle@,
        decreases n - m + 1 - i,
    {
        if match_at(hay, needle, i) {
            proof {
                assert(hay@.subrange(i as int, i as int + needle@.len() as int) == needle@);
            }
            return true;
        }
        i += 1;
    }
    proof {
        assert forall|k: int| 0 <= k && k + needle@.len() <= hay@.len() implies #[trigger] hay@
            .subrange(k, k + needle@.len() as int) != needle@ by {
            assert(k < i);
        }
    }
    false
}

/// Splits `s` at the first occurrence of `sep`, when there is one.
pub fn split_once_char(s: &str, sep: char) -> (r: Option<(String, String)>)
    ensures
        match r {
            None => find_char_spec(s@, sep) is None,
            Some(p) => {
                &&& find_char_spec(s@, sep) is Some
                &&& p.0@ == s@.subrange(0, find_char_spec(s@, sep)->Some_0)
                &&& p.1@ == s@.skip(find_char_spec(s@, sep)->Some_0 + 1)
            },
        },
{
    proof {
        lemma_find_char_spec(s@, sep);
    }
    match find_char(s, sep) {
        None => None,
        Some(i) => {
            let n = s.unicode_len();
            let head = s.substring_char(0, i).to_owned();
            let tail = s.substring_char(i + 1, n).to_owned();
            Some((head, tail))
        },
    }
}

/// A decimal digit.
pub open spec fn is_digit(c: char) -> bool {
    48 <= c as u32 <= 57
}

pub open spec fn digit_val(c: char) -> int {
    c as u32 - 48
}

pub open spec fn all_digits(s: Seq<char>) -> bool {
    forall|i: int| 0 <= i < s.len() ==> is_digit(#[trigger] s[i])
}

/// The value of a string of decimal digits, most significant first.
pub open spec fn digits_val(s: Seq<char>) -> int
    decreases s.len(),
{
    if s.len() == 0 {
        0
    } else {
        digits_val(s.take(s.len() - 1)) * 10 + digit_val(s[s.len() - 1])
    }
}

pub proof fn lemma_digits_val_nonneg(s: Seq<char>)
    requires
        all_digits(s),
    ensures
        digits_val(s) >= 0,
    decreases s.len(),
{
    if s.len() > 0 {
        assert(all_digits(s.take(s.len() - 1)));
        lemma_digits_val_nonneg(s.take(s.len() - 1));
    }
}

/// Extending a digit string on the right never lowers its value.
pub proof fn lemma_digits_val_monotone(s: Seq<char>, j: int, k: int)
    requires
        all_digits(s.take(k)),
        0 <= j <= k <= s.len(),
    ensures
        digits_val(s.take(j)) <= digits_val(s.take(k)),
    decreases k - j,
{
    if j < k {
        let p = s.take(k - 1);
        assert(all_digits(p)) by {
            assert(forall|i: int| 0 <= i < k - 1 ==> p[i] == #[trigger] s.take(k)[i]);
        }
        lemma_digits_val_monotone(s, j, k - 1);
        lemma_digits_val_nonneg(p);
        assert(s.take(k).take(k - 1) =~= p);
        assert(digits_val(s.take(k)) == digits_val(p) * 10 + digit_val(s[k - 1]));
    }
}

/// How `str::parse::<usize>` reads a decimal number: an optional
/// leading plus sign, then at least one digit, with the value within
/// the machine range; anything else fails.
pub open spec fn parse_usize_spec(s: Seq<char>) -> Option<int> {
    let t = if s.len() > 0 && s[0] == '+' {
        s.skip(1)
    } else {
        s
    };
    if t.len() == 0 || !all_digits(t) || digits_val(t) > usize::MAX {
        None
    } else {
        Some(digits_val(t))
    }
}

/// Parses an unsigned decimal number as `str::parse::<usize>` does.
pub fn parse_usize(s: &str) -> (r: Option<usize>)
    ensures
        match r {
            None => parse_usize_spec(s@) is None,
            Some(v) => parse_usize_spec(s@) == Some(v as int),
        },
{
    let n = s.unicode_len();
    let t: &str = if n > 0 && s.get_char(0) == '+' {
        s.substring_char(1, n)
    } else {
        s
    };
    let ghost tv = t@;
    let m = t.unicode_len();
    if m == 0 {
        return None;
    }
    let mut acc: u128 = 0;
    let mut i: usize = 0;
    while i < m
        invariant
            m == tv.len(),
            t@ == tv,
            tv == (if s@.len() > 0 && s@[0] == '+' {
                s@.skip(1)
            } else {
                s@
            }),
            0 <= i <= m,
            all_digits(tv.take(i as int)),
            acc == digits_val(tv.take(i as int)),
            acc <= usize::MAX,
        decreases m - i,
    {
        let c = t.get_char(i);
        let u = c as u32;
        if u < 48 || u > 57 {
            proof {
                assert(!all_digits(tv)) by {
                    assert(!is_digit(tv[i as int]));
                }
            }
            return None;
        }
        let d: u128 = (u - 48) as u128;
        acc = acc * 10 + d;
        proof {
            assert(tv.take(i + 1).take(i as int) =~= tv.take(i as int));
            assert(tv.take(i + 1)[i as int] == tv[i as int]);
            assert(acc == digits_val(tv.take(i + 1)));
            assert(all_digits(tv.take(i + 1)));
        }
        i += 1;
        if acc > usize::MAX as u128 {
            proof {
                if all_digits(tv) {
                    assert(all_digits(tv.take(tv.len() as int))) by {
                        assert(tv.take(tv.len() as int) =~= tv);
                    }
                    lemma_digits_val_monotone(tv, i as int, tv.len() as int);
                    assert(tv.take(tv.len() as int) =~= tv);
                    assert(digits_val(tv) > usize::MAX);
                }
            }
            return None;
        }
    }
    proof {
        assert(tv.take(m as int) =~= tv);
    }
    Some(acc as usize)
}

/// `s` with every trailing occurrence of `c` removed.
pub open spec fn strip_trailing_spec(s: Seq<char>, c: char) -> Seq<char>
    decreases s.len(),
{
    if s.len() > 0 && s[s.len() - 1] == c {
        strip_trailing_spec(s.take(s.len() - 1), c)
    } else {
        s
    }
}

pub proof fn lemma_strip_trailing_spec(s: Seq<char>, c: char)
    ensures
        ({
            let r = strip_trailing_spec(s, c);
            &&& 0 <= r.len() <= s.len()
            &&& r == s.take(r.len() as int)
            &&& forall|j: int| r.len() <= j < s.len() ==> s[j] == c
            &&& r.len() > 0 ==> r[r.len() - 1] != c
        }),
    decreases s.len(),
{
    if s.len() > 0 && s[s.len() - 1] == c {
        lemma_strip_trailing_spec(s.take(s.len() - 1), c);
        let r = strip_trailing_spec(s, c);
        assert(s.take(s.len() - 1).take(r.len() as int) =~= s.take(r.len() as int));
        assert(forall|j: int|
            r.len() <= j < s.len() - 1 ==> s.take(s.len() - 1)[j] == s[j]);
    }
}

/// Removes every trailing occurrence of `c` from `s`.
pub fn trim_end_char<'a>(s: &'a str, c: char) -> (r: &'a str)
    ensures
        r@ == strip_trailing_spec(s@, c),
{
    proof {
        lemma_strip_trailing_spec(s@, c);
    }
    let n = s.unicode_len();
    let mut end: usize = n;
    while end > 0 && s.get_char(end - 1) == c
        invariant
            n == s@.len(),
            0 <= end <= n,
            forall|j: int| end <= j < n ==> s@[j] == c,
        decreases end,
    {
        end -= 1;
    }
    let r = s.substring_char(0, end);
    proof {
        let k = strip_trailing_spec(s@, c).len() as int;
        if end < k {
            assert(s@[k - 1] == c);
            assert(strip_trailing_spec(s@, c)[k - 1] == s@.take(k)[k - 1]);
        }
        if end > k {
            assert(s@[end - 1] == c);
        }
        assert(r@ =~= strip_trailing_spec(s@, c));
    }
    r
}

/// `l` with one trailing carriage return removed.
pub open spec fn strip_cr(l: Seq<char>) -> Seq<char> {
    if l.len() > 0 && l[l.len() - 1] == '\r' {
        l.take(l.len() - 1)
    } else {
        l
    }
}

/// The lines of a text: split at newlines, without a final empty
/// line, each line without its trailing carriage return.
pub open spec fn lines_spec(s: Seq<char>) -> Seq<Seq<char>> {
    let raw = split_char_spec(s, '\n');
    let kept = if raw.len() > 0 && raw[raw.len() - 1].len() == 0 {
        raw.take(raw.len() - 1)
    } else {
        raw
    };
    kept.map_values(|l: Seq<char>| strip_cr(l))
}

/// Splits a text into lines.
pub fn lines_of(s: &str) -> (r: Vec<String>)
    ensures
        r.deep_view() == lines_spec(s@),
{
    let mut raw = split_char(s, '\n');
    let ghost raw0 = raw.deep_view();
    if raw.len() > 0 && raw[raw.len() - 1].as_str().unicode_len() == 0 {
        let ghost pre = raw@;
        let _ = raw.pop();
        proof {
            assert(raw@ =~= pre.take(pre.len() - 1));
            assert forall|j: int| 0 <= j < raw@.len() implies raw.deep_view()[j] == raw0.take(
                raw0.len() - 1,
            )[j] by {
                assert(raw@[j] == pre[j]);
            }
            assert(raw.deep_view() =~= raw0.take(raw0.len() - 1));
        }
    }
    let ghost kept = raw.deep_view();
    let mut out: Vec<String> = Vec::new();
    let mut i: usize = 0;
    while i < raw.len()
        invariant
            kept == raw.deep_view(),
            kept.len() == raw@.len(),
            0 <= i <= raw.len(),
            out@.len() == i,
            forall|j: int| 0 <= j < i ==> (#[trigger] out@[j])@ == strip_cr(kept[j]),
        decreases raw.len() - i,
    {
        let ghost pre_v = out@;
        let line = raw[i].as_str();
        let n = line.unicode_len();
        proof {
            assert(kept[i as int] == raw@[i as int]@);
        }
        if n > 0 && line.get_char(n - 1) == '\r' {
            out.push(line.substring_char(0, n - 1).to_owned());
        } else {
            out.push(line.to_owned());
        }
        proof {
            assert(out@[i as int]@ == strip_cr(kept[i as int]));
            assert forall|j: int| 0 <= j < i implies (#[trigger] out@[j])@ == strip_cr(kept[j]) by {
                assert(out@[j] == pre_v[j]);
            }
        }
        i += 1;
    }
    proof {
        let m = kept.map_values(|l: Seq<char>| strip_cr(l));
        assert forall|j: int| 0 <= j < out@.len() implies out.deep_view()[j] == m[j] by {
            assert(out.deep_view()[j] == out@[j]@);
        }
        assert(out.deep_view() =~= m);
        assert(out.deep_view() =~= lines_spec(s@));
    }
    out
}

} // verus!
