//! Verified text utilities: suffix tests, substring search, replacement,
//! path basenames and decimal formatting, all specified over `Seq<char>`.
use vstd::prelude::*;
use vstd::string::StrSliceExecFns;
use vstd::string::StringExecFns;

verus! {

/// `s` ends with `suffix`.
pub open spec fn ends_with(s: Seq<char>, suffix: Seq<char>) -> bool {
    suffix.len() <= s.len() && s.subrange(s.len() - suffix.len(), s.len() as int) == suffix
}

/// The part of `s` after the last occurrence of `c`; all of `s` when `c`
/// does not occur.
pub open spec fn after_last_char(s: Seq<char>, c: char) -> Seq<char>
    decreases s.len(),
{
    if s.len() == 0 {
        s
    } else if s.last() == c {
        Seq::empty()
    } else {
        after_last_char(s.drop_last(), c).push(s.last())
    }
}

/// The pattern `pat` occurs in `s` at position `i`.
pub open spec fn matches_at(s: Seq<char>, pat: Seq<char>, i: int) -> bool {
    0 <= i && i + pat.len() <= s.len() && s.subrange(i, i + pat.len()) == pat
}

/// The position of the first occurrence of `pat` at or after `from`.
pub open spec fn spec_find_from(s: Seq<char>, pat: Seq<char>, from: int) -> Option<int>
    decreases s.len() - from via spec_find_from_decreases
{
    if from < 0 || from + pat.len() > s.len() {
        None
    } else if s.subrange(from, from + pat.len()) == pat {
        Some(from)
    } else {
        spec_find_from(s, pat, from + 1)
    }
}

#[via_fn]
proof fn spec_find_from_decreases(s: Seq<char>, pat: Seq<char>, from: int) {
    if !(from < 0 || from + pat.len() > s.len()) && s.subrange(from, from + pat.len()) != pat {
        if pat.len() == 0 {
            assert(s.subrange(from, from + pat.len()) =~= pat);
        }
    }
}

/// The position of the first occurrence of `pat` in `s`.
pub open spec fn spec_find(s: Seq<char>, pat: Seq<char>) -> Option<int> {
    spec_find_from(s, pat, 0)
}

/// `s` with every non-overlapping occurrence of `pat`, taken left to
/// right, replaced by `rep` (the replacement itself is not rescanned).
pub open spec fn spec_replace(s: Seq<char>, pat: Seq<char>, rep: Seq<char>) -> Seq<char>
    decreases s.len() via spec_replace_decreases
{
    if pat.len() == 0 {
        s
    } else {
        match spec_find(s, pat) {
            None => s,
            Some(i) => s.take(i) + rep + spec_replace(s.skip(i + pat.len()), pat, rep),
        }
    }
}

#[via_fn]
proof fn spec_replace_decreases(s: Seq<char>, pat: Seq<char>, rep: Seq<char>) {
    if pat.len() > 0 {
        lemma_find_from_correct(s, pat, 0);
    }
}

/// Whatever `spec_find_from` returns is a first match: a match at the
/// returned position, and no match before it (from `from` on).
pub proof fn lemma_find_from_correct(s: Seq<char>, pat: Seq<char>, from: int)
    requires
        0 <= from,
    ensures
        spec_find_from(s, pat, from) matches Some(i) ==> matches_at(s, pat, i) && from <= i
            && forall|j: int| from <= j < i ==> !matches_at(s, pat, j),
        spec_find_from(s, pat, from) is None ==> forall|j: int|
            from <= j ==> !matches_at(s, pat, j),
    decreases s.len() - from,
{
    if from + pat.len() > s.len() {
        assert(forall|j: int| from <= j ==> !matches_at(s, pat, j));
    } else if s.subrange(from, from + pat.len()) == pat {
    } else {
        assert(pat.len() > 0) by {
            if pat.len() == 0 {
                assert(s.subrange(from, from + pat.len()) =~= pat);
            }
        }
        lemma_find_from_correct(s, pat, from + 1);
        assert(!matches_at(s, pat, from));
    }
}

/// Exec equality of two string slices.
pub fn str_eq(a: &str, b: &str) -> (r: bool)
    ensures
        r == (a@ == b@),
{
    let alen = a.unicode_len();
    let blen = b.unicode_len();
    if alen != blen {
        assert(a@ != b@);
        return false;
    }
    let mut i: usize = 0;
    while i < alen
        invariant
            alen == a@.len(),
            blen == b@.len(),
            alen == blen,
            0 <= i <= alen,
            forall|j: int| 0 <= j < i ==> a@[j] == b@[j],
        decreases alen - i,
    {
        if a.get_char(i) != b.get_char(i) {
            return false;
        }
        i = i + 1;
    }
    proof {
        assert(a@ =~= b@);
    }
    true
}

/// Exec test of `ends_with`.
pub fn str_ends_with(s: &str, suffix: &str) -> (r: bool)
    ensures
        r == ends_with(s@, suffix@),
{
    let slen = s.unicode_len();
    let xlen = suffix.unicode_len();
    if xlen > slen {
        return false;
    }
    let tail = s.substring_char(slen - xlen, slen);
    str_eq(tail, suffix)
}

/// Exec computation of `after_last_char`: the part of `s` after the
/// last occurrence of `c`, such as the basename of a slash-separated
/// path.
pub fn after_last<'a>(s: &'a str, c: char) -> (r: &'a str)
    ensures
        r@ == after_last_char(s@, c),
{
    let len = s.unicode_len();
    let mut k: usize = len;
    while k > 0
        invariant
            len == s@.len(),
            0 <= k <= len,
            forall|j: int| k <= j < len ==> s@[j] != c,
        decreases k,
    {
        if s.get_char(k - 1) == c {
            proof {
                lemma_after_last_char_at(s@, c, k as int);
            }
            return s.substring_char(k, len);
        }
        k = k - 1;
    }
    proof {
        lemma_after_last_char_at(s@, c, 0);
    }
    s.substring_char(0, len)
}

/// A match of `pat` in a suffix of `s` is a match in `s`, shifted.
proof fn lemma_matches_at_skip(s: Seq<char>, pat: Seq<char>, i: int, k: int)
    requires
        0 <= i <= s.len(),
        0 <= k,
    ensures
        matches_at(s.skip(i), pat, k) == matches_at(s, pat, i + k),
{
    if k + pat.len() <= s.skip(i).len() {
        assert(s.skip(i).subrange(k, k + pat.len()) =~= s.subrange(i + k, i + k + pat.len()));
    }
}

/// Searching `s` from position `i` finds the same occurrence as searching
/// the suffix `s.skip(i)` from its start.
proof fn lemma_find_skip(s: Seq<char>, pat: Seq<char>, i: int)
    requires
        0 <= i <= s.len(),
    ensures
        spec_find_from(s, pat, i) matches Some(j) ==> spec_find(s.skip(i), pat) == Some(j - i),
        spec_find_from(s, pat, i) is None ==> spec_find(s.skip(i), pat) is None,
{
    lemma_find_from_correct(s, pat, i);
    lemma_find_from_correct(s.skip(i), pat, 0);
    assert forall|k: int| 0 <= k implies matches_at(s.skip(i), pat, k) == matches_at(
        s,
        pat,
        i + k,
    ) by {
        lemma_matches_at_skip(s, pat, i, k);
    }
    match spec_find_from(s, pat, i) {
        Some(j) => {
            assert(matches_at(s.skip(i), pat, j - i));
            match spec_find(s.skip(i), pat) {
                Some(m) => {
                    assert(matches_at(s, pat, i + m));
                    if m < j - i {
                        assert(false);
                    }
                    if m > j - i {
                        assert(false);
                    }
                },
                None => {
                    assert(false);
                },
            }
        },
        None => {
            match spec_find(s.skip(i), pat) {
                Some(m) => {
                    assert(matches_at(s, pat, i + m));
                    assert(false);
                },
                None => {},
            }
        },
    }
}

/// Exec search for the first occurrence of `pat` in `s` at or after
/// position `from`.
pub fn find_from(s: &str, pat: &str, from: usize) -> (r: Option<usize>)
    requires
        from <= s@.len(),
    ensures
        r matches Some(j) ==> spec_find_from(s@, pat@, from as int) == Some(j as int),
        r is None ==> spec_find_from(s@, pat@, from as int) is None,
{
    let slen = s.unicode_len();
    let patlen = pat.unicode_len();
    let mut i: usize = from;
    while patlen <= slen - i && i <= slen
        invariant
            slen == s@.len(),
            patlen == pat@.len(),
            from <= i <= slen,
            spec_find_from(s@, pat@, from as int) == spec_find_from(s@, pat@, i as int),
        decreases slen - i,
    {
        let piece = s.substring_char(i, i + patlen);
        if str_eq(piece, pat) {
            assert(s@.subrange(i as int, i + patlen) == pat@);
            return Some(i);
        }
        proof {
            assert(s@.subrange(i as int, i + patlen) != pat@);
            if patlen == 0 {
                assert(s@.subrange(i as int, i + patlen) =~= pat@);
            }
            assert(spec_find_from(s@, pat@, i as int) == spec_find_from(s@, pat@, i + 1));
        }
        i = i + 1;
    }
    assert(spec_find_from(s@, pat@, i as int) is None);
    None
}

/// Exec computation of `spec_replace`: every occurrence of `pat` in `s`,
/// left to right, replaced by `rep`.
pub fn replace_all(s: &str, pat: &str, rep: &str) -> (r: String)
    requires
        pat@.len() > 0,
    ensures
        r@ == spec_replace(s@, pat@, rep@),
{
    let slen = s.unicode_len();
    let mut out = String::new();
    let mut i: usize = 0;
    proof {
        assert(s@.skip(0) =~= s@);
        assert(out@ + spec_replace(s@, pat@, rep@) =~= spec_replace(s@, pat@, rep@));
    }
    loop
        invariant_except_break
            slen == s@.len(),
            pat@.len() > 0,
            0 <= i <= slen,
            spec_replace(s@, pat@, rep@) == out@ + spec_replace(s@.skip(i as int), pat@, rep@),
        ensures
            out@ == spec_replace(s@, pat@, rep@),
        decreases slen - i,
    {
        proof {
            lemma_find_skip(s@, pat@, i as int);
        }
        match find_from(s, pat, i) {
            None => {
                assert(spec_replace(s@.skip(i as int), pat@, rep@) == s@.skip(i as int));
                let ghost prefix = out@;
                out.append(s.substring_char(i, slen));
                proof {
                    assert(s@.subrange(i as int, slen as int) =~= s@.skip(i as int));
                    assert(out@ =~= prefix + spec_replace(s@.skip(i as int), pat@, rep@));
                }
                break ;
            },
            Some(j) => {
                proof {
                    lemma_find_from_correct(s@, pat@, i as int);
                }
                let ghost suffix = s@.skip(i as int);
                let ghost iold = i as int;
                proof {
                    assert(spec_replace(suffix, pat@, rep@) == suffix.take(j - iold) + rep@
                        + spec_replace(suffix.skip(j - iold + pat@.len()), pat@, rep@));
                    assert(suffix.take(j - iold) =~= s@.subrange(iold, j as int));
                    assert(suffix.skip(j - iold + pat@.len()) =~= s@.skip(j + pat@.len()));
                }
                let ghost prefix = out@;
                out.append(s.substring_char(i, j));
                out.append(rep);
                i = j + pat.unicode_len();
                proof {
                    assert(out@ =~= prefix + s@.subrange(iold, j as int) + rep@);
                    assert(prefix + spec_replace(suffix, pat@, rep@) =~= out@ + spec_replace(
                        s@.skip(i as int),
                        pat@,
                        rep@,
                    ));
                }
            },
        }
    }
    out
}

/// Append a copy of every string of `src` to `dst`, in order.
pub(crate) fn append_strings(dst: &mut Vec<String>, src: &Vec<String>)
    ensures
        final(dst).deep_view() == old(dst).deep_view() + src.deep_view(),
{
    let ghost d0 = dst.deep_view();
    let n = src.len();
    proof {
        assert(src.deep_view().take(0) =~= Seq::<Seq<char>>::empty());
        assert(dst.deep_view() =~= d0 + src.deep_view().take(0));
    }
    let mut i: usize = 0;
    while i < n
        invariant
            n == src@.len(),
            0 <= i <= n,
            dst.deep_view() == d0 + src.deep_view().take(i as int),
        decreases n - i,
    {
        let ghost dprev = dst.deep_view();
        dst.push(src[i].clone());
        proof {
            assert(dst.deep_view() =~= dprev.push(src@[i as int]@));
            assert(src.deep_view().take(i + 1) =~= src.deep_view().take(i as int).push(
                src@[i as int]@,
            ));
            assert(dst.deep_view() =~= d0 + src.deep_view().take(i + 1));
        }
        i = i + 1;
    }
    proof {
        assert(src.deep_view().take(n as int) =~= src.deep_view());
    }
}

/// Relies on `String::push`: appends the given character to the end of
/// the string.
#[verifier::external_body]
pub fn push_char(s: &mut String, c: char)
    ensures
        final(s)@ == old(s)@.push(c),
{
    s.push(c);
}

/// Relies on `String::from_utf8`: returns the decoded string exactly when
/// the bytes are valid UTF-8.
#[verifier::external_body]
fn string_from_utf8(bytes: Vec<u8>) -> (r: Option<String>)
    ensures
        r is Some <==> vstd::utf8::valid_utf8(bytes@),
        r matches Some(t) ==> t@ == vstd::utf8::decode_utf8(bytes@),
{
    String::from_utf8(bytes).ok()
}

/// Read one embedded asset's raw bytes as text: the UTF-8 decoding, owed
/// exactly when the bytes are valid UTF-8.
pub fn asset_to_string(data: Vec<u8>) -> (r: Option<String>)
    ensures
        r is Some <==> vstd::utf8::valid_utf8(data@),
        r matches Some(t) ==> t@ == vstd::utf8::decode_utf8(data@),
{
    string_from_utf8(data)
}

/// The character of one decimal digit.
pub open spec fn decimal_digit(d: int) -> char {
    if d == 0 {
        '0'
    } else if d == 1 {
        '1'
    } else if d == 2 {
        '2'
    } else if d == 3 {
        '3'
    } else if d == 4 {
        '4'
    } else if d == 5 {
        '5'
    } else if d == 6 {
        '6'
    } else if d == 7 {
        '7'
    } else if d == 8 {
        '8'
    } else {
        '9'
    }
}

/// The decimal representation of a non-negative integer, without leading
/// zeros (except for zero itself).
pub open spec fn spec_decimal(n: int) -> Seq<char>
    decreases n,
{
    if n < 10 {
        seq![decimal_digit(n)]
    } else {
        spec_decimal(n / 10).push(decimal_digit(n % 10))
    }
}

fn digit_char(d: i32) -> (c: char)
    requires
        0 <= d < 10,
    ensures
        c == decimal_digit(d as int),
{
    match d {
        0 => '0',
        1 => '1',
        2 => '2',
        3 => '3',
        4 => '4',
        5 => '5',
        6 => '6',
        7 => '7',
        8 => '8',
        _ => '9',
    }
}

/// The decimal text of a non-negative number, digit by digit.
pub fn decimal_string(n: i32) -> (r: String)
    requires
        n >= 0,
    ensures
        r@ == spec_decimal(n as int),
    decreases n,
{
    if n < 10 {
        let mut s = String::new();
        push_char(&mut s, digit_char(n));
        assert(s@ =~= spec_decimal(n as int));
        s
    } else {
        let mut s = decimal_string(n / 10);
        push_char(&mut s, digit_char(n % 10));
        s
    }
}

/// The part after the last occurrence of `c` holds no `c` at all.
pub proof fn lemma_after_last_char_free(s: Seq<char>, c: char)
    ensures
        forall|i: int|
            0 <= i < after_last_char(s, c).len() ==> #[trigger] after_last_char(s, c)[i] != c,
    decreases s.len(),
{
    if s.len() > 0 && s.last() != c {
        lemma_after_last_char_free(s.drop_last(), c);
        let rec = after_last_char(s.drop_last(), c);
        assert forall|i: int| 0 <= i < after_last_char(s, c).len() implies after_last_char(
            s,
            c,
        )[i] != c by {
            if i < rec.len() {
                assert(after_last_char(s, c)[i] == rec[i]);
            } else {
                assert(after_last_char(s, c)[i] == s.last());
            }
        }
    }
}

/// Replacement introduces no character besides those of the text and the
/// replacement: a character foreign to both stays absent.
pub proof fn lemma_replace_keeps_char_free(s: Seq<char>, pat: Seq<char>, rep: Seq<char>, c: char)
    requires
        forall|i: int| 0 <= i < s.len() ==> s[i] != c,
        forall|i: int| 0 <= i < rep.len() ==> rep[i] != c,
    ensures
        forall|i: int|
            0 <= i < spec_replace(s, pat, rep).len() ==> #[trigger] spec_replace(s, pat, rep)[i]
                != c,
    decreases s.len(),
{
    if pat.len() > 0 {
        match spec_find(s, pat) {
            None => {},
            Some(k) => {
                lemma_find_from_correct(s, pat, 0);
                let tail = s.skip(k + pat.len());
                assert(forall|i: int| 0 <= i < tail.len() ==> tail[i] != c);
                lemma_replace_keeps_char_free(tail, pat, rep, c);
                let out = s.take(k) + rep + spec_replace(tail, pat, rep);
                assert forall|i: int| 0 <= i < out.len() implies out[i] != c by {
                    if i < k {
                        assert(out[i] == s[i]);
                    } else if i < k + rep.len() {
                        assert(out[i] == rep[i - k]);
                    } else {
                        assert(out[i] == spec_replace(tail, pat, rep)[i - k - rep.len()]);
                    }
                }
            },
        }
    }
}

/// When no `c` occurs at or after position `i`, and `i` is either 0 or
/// just past a `c`, the part after the last `c` is the suffix from `i`.
proof fn lemma_after_last_char_at(s: Seq<char>, c: char, i: int)
    requires
        0 <= i <= s.len(),
        forall|j: int| i <= j < s.len() ==> s[j] != c,
        i > 0 ==> s[i - 1] == c,
    ensures
        after_last_char(s, c) == s.subrange(i, s.len() as int),
    decreases s.len(),
{
    if s.len() == 0 {
        assert(after_last_char(s, c) =~= s.subrange(0, 0));
    } else if i == s.len() {
        if i > 0 {
            assert(s.last() == c);
            assert(after_last_char(s, c) =~= s.subrange(i, s.len() as int));
        } else {
            assert(s.len() == 0);
        }
    } else {
        assert(s.last() != c);
        lemma_after_last_char_at(s.drop_last(), c, i);
        assert(after_last_char(s, c) =~= s.subrange(i, s.len() as int)) by {
            assert(s.drop_last().subrange(i, s.drop_last().len() as int) =~= s.subrange(
                i,
                s.len() - 1,
            ));
            assert(s.subrange(i, s.len() - 1).push(s.last()) =~= s.subrange(i, s.len() as int));
        }
    }
}

} // verus!
