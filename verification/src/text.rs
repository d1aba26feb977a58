//! Verified helpers for building and inspecting strings, and the path
//! sanitisation rule that names each file's backup directory.

use vstd::prelude::*;
use vstd::string::StrSliceExecFns;
use vstd::utf8::encode_utf8;
use vstd::utf8::valid_utf8;

verus! {

/// Relies on `String::from_utf8`: decoding succeeds exactly on valid
/// UTF-8, and the returned string's byte encoding is the input.
#[verifier::external_body]
pub fn utf8_to_string(v: Vec<u8>) -> (r: Option<String>)
    ensures
        r is Some <==> valid_utf8(v@),
        r is Some ==> encode_utf8(r->Some_0@) == v@,
{
    String::from_utf8(v).ok()
}

/// Relies on `String::push`: appends exactly one character to the string.
#[verifier::external_body]
pub(crate) fn push_char(s: &mut String, c: char)
    ensures
        final(s)@ == old(s)@ + seq![c],
{
    s.push(c);
}

/// A byte-for-byte copy of a byte vector.
pub fn clone_bytes(v: &Vec<u8>) -> (r: Vec<u8>)
    ensures
        r@ == v@,
{
    let mut out: Vec<u8> = Vec::new();
    let n = v.len();
    let mut i: usize = 0;
    while i < n
        invariant
            n == v@.len(),
            i <= n,
            out@ == v@.take(i as int),
        decreases n - i,
    {
        out.push(v[i]);
        proof {
            assert(out@ =~= v@.take(i + 1));
        }
        i += 1;
    }
    proof {
        assert(v@.take(n as int) =~= v@);
    }
    out
}

/// The decimal digit character for `n` in `0 .. 10`.
pub open spec fn dec_digit(n: int) -> char {
    if n == 0 { '0' }
    else if n == 1 { '1' }
    else if n == 2 { '2' }
    else if n == 3 { '3' }
    else if n == 4 { '4' }
    else if n == 5 { '5' }
    else if n == 6 { '6' }
    else if n == 7 { '7' }
    else if n == 8 { '8' }
    else { '9' }
}

/// The decimal rendering of `n`, most significant digit first.
pub open spec fn dec_digits(n: nat) -> Seq<char>
    decreases n,
{
    if n < 10 {
        seq![dec_digit(n as int)]
    } else {
        dec_digits(n / 10) + seq![dec_digit((n % 10) as int)]
    }
}

/// The decimal digit character for `n`, as executable code.
fn dec_char(n: u64) -> (c: char)
    requires
        n < 10,
    ensures
        c == dec_digit(n as int),
{
    match n {
        0 => '0',
        1 => '1',
        2 => '2',
        3 => '3',
        4 => '4',
        5 => '5',
        6 => '6',
        7 => '7',
        8 => '8',
        _ => '9',
    }
}

/// Renders `n` in decimal.
pub fn u64_to_string(n: u64) -> (r: String)
    ensures
        r@ == dec_digits(n as nat),
    decreases n,
{
    if n < 10 {
        let mut s = String::new();
        push_char(&mut s, dec_char(n));
        proof {
            assert(s@ =~= dec_digits(n as nat));
        }
        s
    } else {
        let mut s = u64_to_string(n / 10);
        push_char(&mut s, dec_char(n % 10));
        proof {
            assert(s@ =~= dec_digits(n as nat));
        }
        s
    }
}

/// Strict lexicographic order on character sequences, by code point.
pub open spec fn lex_lt(a: Seq<char>, b: Seq<char>) -> bool
    decreases a.len(),
{
    if b.len() == 0 {
        false
    } else if a.len() == 0 {
        true
    } else if a[0] != b[0] {
        (a[0] as u32) < (b[0] as u32)
    } else {
        lex_lt(a.drop_first(), b.drop_first())
    }
}

/// Two sequences that agree on a prefix compare as their tails do.
proof fn lemma_lex_skip(a: Seq<char>, b: Seq<char>, i: int)
    requires
        0 <= i <= a.len(),
        i <= b.len(),
        forall|j: int| 0 <= j < i ==> a[j] == b[j],
    ensures
        lex_lt(a, b) == lex_lt(a.skip(i), b.skip(i)),
    decreases i,
{
    if i > 0 {
        assert(a.len() > 0 && b.len() > 0);
        assert(a[0] == b[0]);
        assert(a.drop_first().skip(i - 1) =~= a.skip(i));
        assert(b.drop_first().skip(i - 1) =~= b.skip(i));
        lemma_lex_skip(a.drop_first(), b.drop_first(), i - 1);
    } else {
        assert(a.skip(0) =~= a);
        assert(b.skip(0) =~= b);
    }
}

/// Decides the strict lexicographic order on two strings.
pub fn lex_less(a: &str, b: &str) -> (r: bool)
    ensures
        r == lex_lt(a@, b@),
{
    let alen = a.unicode_len();
    let blen = b.unicode_len();
    let min: usize = if alen < blen { alen } else { blen };
    let mut i: usize = 0;
    while i < min
        invariant
            alen == a@.len(),
            blen == b@.len(),
            min <= alen,
            min <= blen,
            i <= min,
            forall|j: int| 0 <= j < i ==> a@[j] == b@[j],
        decreases min - i,
    {
        let ca = a.get_char(i);
        let cb = b.get_char(i);
        if ca != cb {
            proof {
                lemma_lex_skip(a@, b@, i as int);
                assert(a@.skip(i as int)[0] == a@[i as int]);
                assert(b@.skip(i as int)[0] == b@[i as int]);
            }
            return (ca as u32) < (cb as u32);
        }
        i += 1;
    }
    proof {
        lemma_lex_skip(a@, b@, min as int);
    }
    alen < blen
}

/// Decides string equality character by character.
pub fn str_eq(a: &str, b: &str) -> (r: bool)
    ensures
        r == (a@ == b@),
{
    let alen = a.unicode_len();
    let blen = b.unicode_len();
    if alen != blen {
        return false;
    }
    let mut i: usize = 0;
    while i < alen
        invariant
            alen == a@.len(),
            alen == b@.len(),
            i <= alen,
            forall|j: int| 0 <= j < i ==> a@[j] == b@[j],
        decreases alen - i,
    {
        if a.get_char(i) != b.get_char(i) {
            return false;
        }
        i += 1;
    }
    proof {
        assert(a@ =~= b@);
    }
    true
}

/// Whether `pat` occurs at position `k` of `s`.
pub(crate) fn match_at(s: &str, pat: &str, k: usize) -> (r: bool)
    requires
        k + pat@.len() <= s@.len(),
    ensures
        r == (s@.subrange(k as int, k + pat@.len()) == pat@),
{
    let slen = s.unicode_len();
    let plen = pat.unicode_len();
    let mut j: usize = 0;
    while j < plen
        invariant
            slen == s@.len(),
            plen == pat@.len(),
            k + plen <= slen,
            j <= plen,
            forall|jj: int| 0 <= jj < j ==> s@[k + jj] == pat@[jj],
        decreases plen - j,
    {
        if s.get_char(k + j) != pat.get_char(j) {
            proof {
                assert(s@.subrange(k as int, k + pat@.len())[j as int] != pat@[j as int]);
            }
            return false;
        }
        j += 1;
    }
    proof {
        assert(s@.subrange(k as int, k + pat@.len()) =~= pat@);
    }
    true
}

/// Whether `pat` occurs somewhere in `s`.
pub open spec fn has_sub(s: Seq<char>, pat: Seq<char>) -> bool {
    exists|k: int| 0 <= k <= s.len() - pat.len() && #[trigger] s.subrange(k, k + pat.len()) == pat
}

/// Decides whether `pat` occurs somewhere in `s`.
pub fn contains_sub(s: &str, pat: &str) -> (r: bool)
    ensures
        r == has_sub(s@, pat@),
{
    let slen = s.unicode_len();
    let plen = pat.unicode_len();
    if plen > slen {
        return false;
    }
    if plen == 0 {
        proof {
            assert(s@.subrange(0, 0 + pat@.len() as int) =~= pat@);
            assert(has_sub(s@, pat@));
        }
        return true;
    }
    let bound: usize = slen - plen;
    let mut k: usize = 0;
    while k <= bound
        invariant
            slen == s@.len(),
            plen == pat@.len(),
            0 < plen <= slen,
            bound == slen - plen,
            k <= bound + 1,
            forall|kk: int| 0 <= kk < k ==> #[trigger] s@.subrange(kk, kk + pat@.len()) != pat@,
        decreases bound + 1 - k,
    {
        if match_at(s, pat, k) {
            return true;
        }
        k += 1;
    }
    false
}

/// Whether `s` ends with `suffix`.
pub open spec fn ends_with(s: Seq<char>, suffix: Seq<char>) -> bool {
    s.len() >= suffix.len() && s.skip(s.len() - suffix.len()) == suffix
}

/// Decides whether `s` ends with `suffix`.
pub fn ends_with_str(s: &str, suffix: &str) -> (r: bool)
    ensures
        r == ends_with(s@, suffix@),
{
    let slen = s.unicode_len();
    let plen = suffix.unicode_len();
    if plen > slen {
        return false;
    }
    let r = match_at(s, suffix, slen - plen);
    proof {
        assert(s@.subrange(slen - plen, slen - plen + suffix@.len()) =~= s@.skip(
            s@.len() - suffix@.len(),
        ));
    }
    r
}

/// Whether `s` starts with `prefix`.
pub open spec fn starts_with(s: Seq<char>, prefix: Seq<char>) -> bool {
    s.len() >= prefix.len() && s.take(prefix.len() as int) == prefix
}

/// Decides whether `s` starts with `prefix`.
pub fn starts_with_str(s: &str, prefix: &str) -> (r: bool)
    ensures
        r == starts_with(s@, prefix@),
{
    let slen = s.unicode_len();
    let plen = prefix.unicode_len();
    if plen > slen {
        return false;
    }
    let r = match_at(s, prefix, 0);
    proof {
        assert(s@.subrange(0, prefix@.len() as int) =~= s@.take(prefix@.len() as int));
    }
    r
}

/// The first `n` characters of `s`, as a new string.
pub fn prefix_chars(s: &str, n: usize) -> (r: String)
    requires
        n <= s@.len(),
    ensures
        r@ == s@.take(n as int),
{
    let mut out = String::new();
    let mut i: usize = 0;
    proof {
        assert(out@ =~= s@.take(0));
    }
    while i < n
        invariant
            n <= s@.len(),
            i <= n,
            out@ == s@.take(i as int),
        decreases n - i,
    {
        push_char(&mut out, s.get_char(i));
        proof {
            assert(out@ =~= s@.take(i + 1));
        }
        i += 1;
    }
    out
}

/// One character of a path after sanitisation: path separators become
/// underscores, everything else is kept.
pub open spec fn sanitize_char(c: char) -> char {
    if c == '/' || c == '\\' {
        '_'
    } else {
        c
    }
}

/// A path with every separator replaced by an underscore.
pub open spec fn separators_replaced(p: Seq<char>) -> Seq<char> {
    Seq::new(p.len(), |i: int| sanitize_char(p[i]))
}

/// A sequence with its leading underscores removed.
pub open spec fn trim_lead(s: Seq<char>) -> Seq<char>
    decreases s.len(),
{
    if s.len() > 0 && s[0] == '_' {
        trim_lead(s.drop_first())
    } else {
        s
    }
}

/// The number of leading underscores of `s`.
pub open spec fn lead_count(s: Seq<char>) -> nat
    decreases s.len(),
{
    if s.len() > 0 && s[0] == '_' {
        (1 + lead_count(s.drop_first())) as nat
    } else {
        0
    }
}

/// Trimming removes exactly the leading underscores.
pub proof fn lemma_trim_lead(s: Seq<char>)
    ensures
        lead_count(s) <= s.len(),
        trim_lead(s) == s.skip(lead_count(s) as int),
        forall|j: int| 0 <= j < lead_count(s) ==> s[j] == '_',
        lead_count(s) < s.len() ==> s[lead_count(s) as int] != '_',
    decreases s.len(),
{
    if s.len() > 0 && s[0] == '_' {
        lemma_trim_lead(s.drop_first());
        assert(s.drop_first().skip(lead_count(s.drop_first()) as int) =~= s.skip(
            lead_count(s) as int,
        ));
        assert forall|j: int| 0 <= j < lead_count(s) implies s[j] == '_' by {
            if j > 0 {
                assert(s.drop_first()[j - 1] == '_');
            }
        }
    } else {
        assert(s.skip(0) =~= s);
    }
}

/// The deterministic name of a path's backup directory: separators replaced
/// by underscores and leading underscores stripped.
pub open spec fn sanitized(p: Seq<char>) -> Seq<char> {
    trim_lead(separators_replaced(p))
}

/// One sanitised character, as executable code.
fn sanitize_char_exec(c: char) -> (r: char)
    ensures
        r == sanitize_char(c),
{
    if c == '/' || c == '\\' {
        '_'
    } else {
        c
    }
}

/// Sanitises a path into its backup directory name.
pub fn sanitize_path(p: &str) -> (r: String)
    ensures
        r@ == sanitized(p@),
{
    let n = p.unicode_len();
    // First pass: replace the separators.
    let mut mapped = String::new();
    let mut i: usize = 0;
    proof {
        assert(mapped@ =~= separators_replaced(p@).take(0));
    }
    while i < n
        invariant
            n == p@.len(),
            i <= n,
            mapped@ == separators_replaced(p@).take(i as int),
        decreases n - i,
    {
        push_char(&mut mapped, sanitize_char_exec(p.get_char(i)));
        proof {
            assert(mapped@ =~= separators_replaced(p@).take(i + 1));
        }
        i += 1;
    }
    proof {
        assert(separators_replaced(p@).take(n as int) =~= separators_replaced(p@));
    }
    let ghost m = mapped@;

    // Second pass: count the leading underscores.
    let mut idx: usize = 0;
    while idx < n && mapped.as_str().get_char(idx) == '_'
        invariant
            n == m.len(),
            mapped@ == m,
            idx <= n,
            forall|j: int| 0 <= j < idx ==> m[j] == '_',
        decreases n - idx,
    {
        idx += 1;
    }
    proof {
        lemma_trim_lead(m);
        assert(idx == lead_count(m)) by {
            if idx < lead_count(m) {
                assert(m[idx as int] == '_');
            }
            if idx > lead_count(m) {
                assert(m[lead_count(m) as int] == '_');
            }
        }
    }

    // Third pass: keep the rest.
    let mut out = String::new();
    let mut k: usize = idx;
    proof {
        assert(out@ =~= m.subrange(idx as int, idx as int));
    }
    while k < n
        invariant
            n == m.len(),
            mapped@ == m,
            idx <= k <= n,
            out@ == m.subrange(idx as int, k as int),
        decreases n - k,
    {
        push_char(&mut out, mapped.as_str().get_char(k));
        proof {
            assert(out@ =~= m.subrange(idx as int, k + 1));
        }
        k += 1;
    }
    proof {
        assert(m.subrange(idx as int, n as int) =~= m.skip(idx as int));
    }
    out
}

/// The lexicographic order never holds reflexively.
pub proof fn lemma_lex_irrefl(a: Seq<char>)
    ensures
        !lex_lt(a, a),
    decreases a.len(),
{
    if a.len() > 0 {
        lemma_lex_irrefl(a.drop_first());
    }
}

/// The lexicographic order is transitive.
pub proof fn lemma_lex_trans(a: Seq<char>, b: Seq<char>, c: Seq<char>)
    requires
        lex_lt(a, b),
        lex_lt(b, c),
    ensures
        lex_lt(a, c),
    decreases a.len(),
{
    if a.len() == 0 {
        assert(b.len() > 0);
        assert(c.len() > 0);
    } else {
        assert(b.len() > 0 && c.len() > 0);
        if a[0] == b[0] && b[0] == c[0] {
            lemma_lex_trans(a.drop_first(), b.drop_first(), c.drop_first());
        }
    }
}

} // verus!

