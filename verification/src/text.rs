//! Character-level text work: strings as sequences of chars, trimming,
//! pattern replacement and decimal rendering.

use vstd::prelude::*;
use vstd::string::*;

verus! {

/// The ASCII members of Unicode `White_Space`: space and `\t` through `\r`.
pub open spec fn is_ascii_white_space(c: char) -> bool {
    c == ' ' || ('\t' <= c && c <= '\r')
}

/// The members of Unicode `White_Space` beyond ASCII: U+0085, U+00A0,
/// U+1680, U+2000 through U+200A, U+2028, U+2029, U+202F, U+205F, U+3000.
pub open spec fn is_non_ascii_white_space(c: char) -> bool {
    let n = c as u32;
    ||| n == 0x85
    ||| n == 0xA0
    ||| n == 0x1680
    ||| (0x2000 <= n && n <= 0x200A)
    ||| n == 0x2028
    ||| n == 0x2029
    ||| n == 0x202F
    ||| n == 0x205F
    ||| n == 0x3000
}

/// Whether `c` has the Unicode `White_Space` property (`char::is_whitespace`).
pub open spec fn is_whitespace_char(c: char) -> bool {
    is_ascii_white_space(c) || is_non_ascii_white_space(c)
}

/// Calls `char::is_whitespace`, which reports the Unicode `White_Space`
/// property of PropList.txt: space, `\t` through `\r`, and the 19 code
/// points beyond ASCII listed at `is_non_ascii_white_space`.
#[verifier::external_body]
pub fn char_is_whitespace(c: char) -> (r: bool)
    ensures
        r == is_whitespace_char(c),
{
    c.is_whitespace()
}

/// Calls `String::push`, which appends one char at the end.
#[verifier::external_body]
fn push_char(s: &mut String, c: char)
    ensures
        final(s)@ == old(s)@.push(c),
{
    s.push(c);
}

/// The chars of a string slice, in order.
pub fn chars_of(s: &str) -> (r: Vec<char>)
    ensures
        r@ == s@,
{
    let n = s.unicode_len();
    let mut out: Vec<char> = Vec::new();
    let mut i: usize = 0;
    while i < n
        invariant
            n == s@.len(),
            i <= n,
            out@ == s@.take(i as int),
        decreases n - i,
    {
        out.push(s.get_char(i));
        proof {
            assert(s@.take(i + 1) =~= s@.take(i as int).push(s@[i as int]));
        }
        i += 1;
    }
    proof {
        assert(s@.take(n as int) =~= s@);
    }
    out
}

/// A string holding the given chars.
pub fn string_from_chars(v: &Vec<char>) -> (r: String)
    ensures
        r@ == v@,
{
    let mut out = String::new();
    let mut i: usize = 0;
    while i < v.len()
        invariant
            i <= v.len(),
            out@ == v@.take(i as int),
        decreases v.len() - i,
    {
        push_char(&mut out, v[i]);
        proof {
            assert(v@.take(i + 1) =~= v@.take(i as int).push(v@[i as int]));
        }
        i += 1;
    }
    proof {
        assert(v@.take(v.len() as int) =~= v@);
    }
    out
}

/// Appends the chars of `w` to `v`.
pub fn extend_chars(v: &mut Vec<char>, w: &Vec<char>)
    ensures
        final(v)@ == old(v)@ + w@,
{
    let mut i: usize = 0;
    while i < w.len()
        invariant
            i <= w.len(),
            v@ == old(v)@ + w@.take(i as int),
        decreases w.len() - i,
    {
        v.push(w[i]);
        proof {
            assert(w@.take(i + 1) =~= w@.take(i as int).push(w@[i as int]));
        }
        i += 1;
    }
    proof {
        assert(w@.take(w.len() as int) =~= w@);
    }
}

/// `s` without its leading whitespace.
pub open spec fn trim_start(s: Seq<char>) -> Seq<char>
    decreases s.len(),
{
    if s.len() > 0 && is_whitespace_char(s[0]) {
        trim_start(s.skip(1))
    } else {
        s
    }
}

/// `s` without its trailing whitespace.
pub open spec fn trim_end(s: Seq<char>) -> Seq<char>
    decreases s.len(),
{
    if s.len() > 0 && is_whitespace_char(s.last()) {
        trim_end(s.drop_last())
    } else {
        s
    }
}

/// Trimming leaves a sequence alone at the front when it starts with a
/// non-whitespace char.
pub proof fn lemma_trim_start_stops(s: Seq<char>)
    requires
        s.len() > 0,
        !is_whitespace_char(s[0]),
    ensures
        trim_start(s) == s,
{
}

/// Trimming at the end never cuts into a prefix that ends with a
/// non-whitespace char.
pub proof fn lemma_trim_end_keeps_prefix(m: Seq<char>, rest: Seq<char>)
    requires
        m.len() > 0,
        !is_whitespace_char(m.last()),
    ensures
        m.is_prefix_of(trim_end(m + rest)),
    decreases rest.len(),
{
    if rest.len() == 0 {
        assert(m + rest =~= m);
    } else {
        let s = m + rest;
        assert(s.last() == rest.last());
        if is_whitespace_char(rest.last()) {
            assert(s.drop_last() =~= m + rest.drop_last());
            lemma_trim_end_keeps_prefix(m, rest.drop_last());
        } else {
            assert(m.is_prefix_of(s));
        }
    }
}

/// `s` without leading and trailing whitespace (what `str::trim` leaves).
pub open spec fn trim_whitespace(s: Seq<char>) -> Seq<char> {
    trim_end(trim_start(s))
}

/// The chars of `v` from `lo` up to `hi`.
pub fn copy_range(v: &Vec<char>, lo: usize, hi: usize) -> (r: Vec<char>)
    requires
        lo <= hi <= v.len(),
    ensures
        r@ == v@.subrange(lo as int, hi as int),
{
    let mut out: Vec<char> = Vec::new();
    let mut k = lo;
    while k < hi
        invariant
            lo <= k <= hi,
            hi <= v.len(),
            out@ == v@.subrange(lo as int, k as int),
        decreases hi - k,
    {
        out.push(v[k]);
        proof {
            assert(v@.subrange(lo as int, k + 1) =~= v@.subrange(lo as int, k as int).push(
                v@[k as int],
            ));
        }
        k += 1;
    }
    out
}

/// Removes leading and trailing whitespace.
pub fn trim_chars(v: &Vec<char>) -> (r: Vec<char>)
    ensures
        r@ == trim_whitespace(v@),
{
    let mut i: usize = 0;
    proof {
        assert(v@.skip(0) =~= v@);
    }
    while i < v.len() && char_is_whitespace(v[i])
        invariant
            i <= v.len(),
            trim_start(v@) == trim_start(v@.skip(i as int)),
        decreases v.len() - i,
    {
        proof {
            assert(v@.skip(i as int).skip(1) =~= v@.skip(i + 1));
        }
        i += 1;
    }
    proof {
        if i == v.len() {
            assert(v@.skip(i as int) =~= Seq::<char>::empty());
        }
    }
    assert(trim_start(v@) == v@.skip(i as int));
    let mut j: usize = v.len();
    while j > i && char_is_whitespace(v[j - 1])
        invariant
            i <= j <= v.len(),
            trim_end(v@.skip(i as int)) == trim_end(v@.subrange(i as int, j as int)),
        decreases j,
    {
        proof {
            assert(v@.subrange(i as int, j as int).drop_last() =~= v@.subrange(
                i as int,
                j - 1,
            ));
        }
        j -= 1;
    }
    proof {
        assert(v@.skip(i as int) =~= v@.subrange(i as int, v.len() as int));
    }
    assert(trim_end(v@.subrange(i as int, j as int)) == v@.subrange(i as int, j as int));
    copy_range(v, i, j)
}


/// `s` without its leading `#` chars (what `str::trim_start_matches('#')` leaves).
pub open spec fn strip_leading_hashes(s: Seq<char>) -> Seq<char>
    decreases s.len(),
{
    if s.len() > 0 && s[0] == '#' {
        strip_leading_hashes(s.skip(1))
    } else {
        s
    }
}

/// Removes every leading `#`.
pub fn strip_hashes(v: &Vec<char>) -> (r: Vec<char>)
    ensures
        r@ == strip_leading_hashes(v@),
{
    let mut i: usize = 0;
    proof {
        assert(v@.skip(0) =~= v@);
    }
    while i < v.len() && v[i] == '#'
        invariant
            i <= v.len(),
            strip_leading_hashes(v@) == strip_leading_hashes(v@.skip(i as int)),
        decreases v.len() - i,
    {
        proof {
            assert(v@.skip(i as int).skip(1) =~= v@.skip(i + 1));
        }
        i += 1;
    }
    proof {
        if i == v.len() {
            assert(v@.skip(i as int) =~= Seq::<char>::empty());
        }
        assert(v@.skip(i as int) =~= v@.subrange(i as int, v.len() as int));
    }
    copy_range(v, i, v.len())
}

/// `s` with every occurrence of `pat` replaced by `rep`, scanning left to
/// right and never matching inside text already replaced (what `str::replace`
/// computes for a non-empty pattern).
pub open spec fn replace_all(s: Seq<char>, pat: Seq<char>, rep: Seq<char>) -> Seq<char>
    decreases s.len(),
{
    if pat.len() == 0 || s.len() == 0 {
        s
    } else if pat.len() <= s.len() && s.take(pat.len() as int) == pat {
        rep + replace_all(s.skip(pat.len() as int), pat, rep)
    } else {
        seq![s[0]] + replace_all(s.skip(1), pat, rep)
    }
}

/// Whether `pat` occurs in `s` at position `at`.
pub fn occurs_at(s: &Vec<char>, at: usize, pat: &Vec<char>) -> (r: bool)
    requires
        at <= s.len(),
    ensures
        r == (pat.len() <= s.len() - at && s@.subrange(at as int, at + pat.len()) == pat@),
{
    if pat.len() > s.len() - at {
        return false;
    }
    let mut k: usize = 0;
    while k < pat.len()
        invariant
            k <= pat.len(),
            pat.len() <= s.len() - at,
            forall|t: int| 0 <= t < k ==> s@[at + t] == pat@[t],
        decreases pat.len() - k,
    {
        if s[at + k] != pat[k] {
            assert(s@.subrange(at as int, at + pat.len())[k as int] != pat@[k as int]);
            return false;
        }
        k += 1;
    }
    assert(s@.subrange(at as int, at + pat.len()) =~= pat@);
    true
}

/// Replaces every occurrence of a non-empty pattern.
pub fn replace_chars(s: &Vec<char>, pat: &Vec<char>, rep: &Vec<char>) -> (r: Vec<char>)
    requires
        pat.len() > 0,
    ensures
        r@ == replace_all(s@, pat@, rep@),
{
    let mut out: Vec<char> = Vec::new();
    let mut i: usize = 0;
    proof {
        assert(s@.skip(0) =~= s@);
    }
    while i < s.len()
        invariant
            i <= s.len(),
            pat.len() > 0,
            replace_all(s@, pat@, rep@) == out@ + replace_all(s@.skip(i as int), pat@, rep@),
        decreases s.len() - i,
    {
        let ghost rest = s@.skip(i as int);
        if occurs_at(s, i, pat) {
            proof {
                assert(rest.take(pat.len() as int) =~= s@.subrange(i as int, i + pat.len()));
                assert(rest.skip(pat.len() as int) =~= s@.skip(i + pat.len()));
                assert(replace_all(rest, pat@, rep@) == rep@ + replace_all(
                    s@.skip(i + pat.len()),
                    pat@,
                    rep@,
                ));
            }
            let ghost before = out@;
            extend_chars(&mut out, rep);
            proof {
                assert(before + (rep@ + replace_all(s@.skip(i + pat.len()), pat@, rep@)) =~= out@
                    + replace_all(s@.skip(i + pat.len()), pat@, rep@));
            }
            i += pat.len();
        } else {
            proof {
                if pat.len() <= rest.len() {
                    assert(rest.take(pat.len() as int) =~= s@.subrange(i as int, i + pat.len()));
                }
                assert(rest.skip(1) =~= s@.skip(i + 1));
                assert(replace_all(rest, pat@, rep@) == seq![s@[i as int]] + replace_all(
                    s@.skip(i + 1),
                    pat@,
                    rep@,
                ));
            }
            let ghost before = out@;
            out.push(s[i]);
            proof {
                assert(before + (seq![s@[i as int]] + replace_all(s@.skip(i + 1), pat@, rep@))
                    =~= out@ + replace_all(s@.skip(i + 1), pat@, rep@));
            }
            i += 1;
        }
    }
    proof {
        assert(s@.skip(i as int) =~= Seq::<char>::empty());
        assert(out@ + Seq::<char>::empty() =~= out@);
    }
    out
}

/// The decimal digit `d` as a char.
pub open spec fn digit_char(d: nat) -> char {
    ((48 + d) as u32) as char
}

/// The decimal rendering of `n`, most significant digit first, without
/// leading zeros (what `to_string` gives for an unsigned integer).
pub open spec fn decimal(n: nat) -> Seq<char>
    decreases n,
{
    if n < 10 {
        seq![digit_char(n)]
    } else {
        decimal(n / 10).push(digit_char(n % 10))
    }
}

/// The decimal rendering of `n`.
pub fn decimal_chars(n: u64) -> (r: Vec<char>)
    ensures
        r@ == decimal(n as nat),
    decreases n,
{
    let d = (n % 10) as u8;
    let c = (48u8 + d) as char;
    if n < 10 {
        let mut v: Vec<char> = Vec::new();
        v.push(c);
        proof {
            assert(v@ =~= seq![digit_char(n as nat)]);
        }
        v
    } else {
        let mut v = decimal_chars(n / 10);
        v.push(c);
        v
    }
}

/// Lexicographic order of char sequences by code point: `a` sorts no later
/// than `b`. For strings this is the order of `String`'s `Ord` (UTF-8 bytes
/// sort as their code points do).
pub open spec fn chars_le(a: Seq<char>, b: Seq<char>) -> bool
    decreases a.len(),
{
    if a.len() == 0 {
        true
    } else if b.len() == 0 {
        false
    } else if a[0] != b[0] {
        a[0] < b[0]
    } else {
        chars_le(a.skip(1), b.skip(1))
    }
}

/// Whether `a` sorts no later than `b`, char by char.
pub fn chars_le_exec(a: &Vec<char>, b: &Vec<char>) -> (r: bool)
    ensures
        r == chars_le(a@, b@),
{
    let mut k: usize = 0;
    proof {
        assert(a@.skip(0) =~= a@);
        assert(b@.skip(0) =~= b@);
    }
    while k < a.len() && k < b.len() && a[k] == b[k]
        invariant
            k <= a.len(),
            k <= b.len(),
            chars_le(a@, b@) == chars_le(a@.skip(k as int), b@.skip(k as int)),
        decreases a.len() - k,
    {
        proof {
            assert(a@.skip(k as int).skip(1) =~= a@.skip(k + 1));
            assert(b@.skip(k as int).skip(1) =~= b@.skip(k + 1));
        }
        k += 1;
    }
    if k == a.len() {
        true
    } else if k == b.len() {
        false
    } else {
        a[k] < b[k]
    }
}


/// Any two char sequences are ordered one way or the other.
pub proof fn lemma_chars_le_total(a: Seq<char>, b: Seq<char>)
    ensures
        chars_le(a, b) || chars_le(b, a),
    decreases a.len(),
{
    if a.len() > 0 && b.len() > 0 && a[0] == b[0] {
        lemma_chars_le_total(a.skip(1), b.skip(1));
    }
}

/// The order of char sequences is transitive.
pub proof fn lemma_chars_le_transitive(a: Seq<char>, b: Seq<char>, c: Seq<char>)
    requires
        chars_le(a, b),
        chars_le(b, c),
    ensures
        chars_le(a, c),
    decreases a.len(),
{
    if a.len() > 0 && b.len() > 0 && c.len() > 0 && a[0] == b[0] && b[0] == c[0] {
        lemma_chars_le_transitive(a.skip(1), b.skip(1), c.skip(1));
    }
}


/// A common prefix does not change the order.
pub proof fn lemma_chars_le_common_prefix(a: Seq<char>, x: Seq<char>, y: Seq<char>)
    ensures
        chars_le(a + x, a + y) == chars_le(x, y),
    decreases a.len(),
{
    if a.len() > 0 {
        assert((a + x).skip(1) =~= a.skip(1) + x);
        assert((a + y).skip(1) =~= a.skip(1) + y);
        lemma_chars_le_common_prefix(a.skip(1), x, y);
    } else {
        assert(a + x =~= x);
        assert(a + y =~= y);
    }
}

/// Of two different prefixes of one length, the first in order decides.
pub proof fn lemma_chars_le_prefix_decides(a: Seq<char>, b: Seq<char>, x: Seq<char>, y: Seq<char>)
    requires
        a.len() == b.len(),
        a != b,
        chars_le(a, b),
    ensures
        chars_le(a + x, b + y),
    decreases a.len(),
{
    if a.len() == 0 {
        assert(a =~= b);
    } else if a[0] != b[0] {
        assert((a + x)[0] == a[0]);
        assert((b + y)[0] == b[0]);
    } else {
        assert((a + x).skip(1) =~= a.skip(1) + x);
        assert((b + y).skip(1) =~= b.skip(1) + y);
        if a.skip(1) == b.skip(1) {
            assert(a =~= seq![a[0]] + a.skip(1));
            assert(b =~= seq![b[0]] + b.skip(1));
        }
        lemma_chars_le_prefix_decides(a.skip(1), b.skip(1), x, y);
    }
}

/// Every sequence sorts no later than itself.
pub proof fn lemma_chars_le_reflexive(a: Seq<char>)
    ensures
        chars_le(a, a),
    decreases a.len(),
{
    if a.len() > 0 {
        lemma_chars_le_reflexive(a.skip(1));
    }
}


/// Whether `w` occurs in `s` as a contiguous run.
pub open spec fn occurs_in(w: Seq<char>, s: Seq<char>) -> bool {
    exists|k: int| 0 <= k && k + w.len() <= s.len() && #[trigger] s.subrange(k, k + w.len()) == w
}

/// Trimming at the front drops a run of whitespace.
proof fn lemma_trim_start_drops_whitespace(s: Seq<char>)
    ensures
        exists|i: int|
            0 <= i <= s.len() && trim_start(s) == s.skip(i) && (forall|j: int|
                0 <= j < i ==> is_whitespace_char(#[trigger] s[j])),
    decreases s.len(),
{
    if s.len() > 0 && is_whitespace_char(s[0]) {
        lemma_trim_start_drops_whitespace(s.skip(1));
        let i = choose|i: int|
            0 <= i <= s.skip(1).len() && trim_start(s.skip(1)) == s.skip(1).skip(i) && (forall|
                j: int,
            | 0 <= j < i ==> is_whitespace_char(#[trigger] s.skip(1)[j]));
        assert(s.skip(1).skip(i) =~= s.skip(i + 1));
        assert forall|j: int| 0 <= j < i + 1 implies is_whitespace_char(#[trigger] s[j]) by {
            if j > 0 {
                assert(s[j] == s.skip(1)[j - 1]);
            }
        }
    } else {
        assert(s.skip(0) =~= s);
    }
}

/// Trimming at the end drops a run of whitespace.
proof fn lemma_trim_end_drops_whitespace(s: Seq<char>)
    ensures
        exists|j: int|
            0 <= j <= s.len() && trim_end(s) == s.take(j) && (forall|k: int|
                j <= k < s.len() ==> is_whitespace_char(#[trigger] s[k])),
    decreases s.len(),
{
    if s.len() > 0 && is_whitespace_char(s.last()) {
        lemma_trim_end_drops_whitespace(s.drop_last());
        let j = choose|j: int|
            0 <= j <= s.drop_last().len() && trim_end(s.drop_last()) == s.drop_last().take(j) && (
            forall|k: int|
                j <= k < s.drop_last().len() ==> is_whitespace_char(#[trigger] s.drop_last()[k]));
        assert(s.drop_last().take(j) =~= s.take(j));
        assert forall|k: int| j <= k < s.len() implies is_whitespace_char(#[trigger] s[k]) by {
            if k < s.len() - 1 {
                assert(s[k] == s.drop_last()[k]);
            }
        }
    } else {
        assert(s.take(s.len() as int) =~= s);
    }
}

/// Trimming keeps every run that starts and ends with a non-whitespace char.
pub proof fn lemma_trim_keeps_inner_run(s: Seq<char>, w: Seq<char>, k: int)
    requires
        w.len() > 0,
        !is_whitespace_char(w[0]),
        !is_whitespace_char(w.last()),
        0 <= k,
        k + w.len() <= s.len(),
        s.subrange(k, k + w.len()) == w,
    ensures
        occurs_in(w, trim_whitespace(s)),
{
    lemma_trim_start_drops_whitespace(s);
    let i = choose|i: int|
        0 <= i <= s.len() && trim_start(s) == s.skip(i) && (forall|j: int|
            0 <= j < i ==> is_whitespace_char(#[trigger] s[j]));
    assert(s[k] == w[0]);
    if k < i {
        assert(is_whitespace_char(s[k]));
    }
    let t = s.skip(i);
    lemma_trim_end_drops_whitespace(t);
    let j = choose|j: int|
        0 <= j <= t.len() && trim_end(t) == t.take(j) && (forall|m: int|
            j <= m < t.len() ==> is_whitespace_char(#[trigger] t[m]));
    let last = k + w.len() - 1 - i;
    assert(t[last] == s[k + w.len() - 1]);
    assert(s[k + w.len() - 1] == w.last());
    if last >= j {
        assert(is_whitespace_char(t[last]));
    }
    let r = t.take(j);
    assert(r.subrange(k - i, k - i + w.len()) =~= w);
}


/// What trimming at the front leaves starts with a non-whitespace char.
proof fn lemma_trim_start_first(s: Seq<char>)
    ensures
        trim_start(s).len() > 0 ==> !is_whitespace_char(trim_start(s)[0]),
    decreases s.len(),
{
    if s.len() > 0 && is_whitespace_char(s[0]) {
        lemma_trim_start_first(s.skip(1));
    }
}

/// What trimming at the end leaves ends with a non-whitespace char.
proof fn lemma_trim_end_last(s: Seq<char>)
    ensures
        trim_end(s).len() > 0 ==> !is_whitespace_char(trim_end(s).last()),
    decreases s.len(),
{
    if s.len() > 0 && is_whitespace_char(s.last()) {
        lemma_trim_end_last(s.drop_last());
    }
}

/// Trimming takes off whitespace at both ends and nothing else: what is
/// left is a contiguous part of the text, with only whitespace before and
/// after it, and it neither starts nor ends with whitespace.
pub proof fn law_trim_drops_only_outer_whitespace(s: Seq<char>)
    ensures
        exists|i: int, j: int|
            0 <= i <= j <= s.len() && trim_whitespace(s) == s.subrange(i, j) && (forall|k: int|
                0 <= k < i ==> is_whitespace_char(#[trigger] s[k])) && (forall|k: int|
                j <= k < s.len() ==> is_whitespace_char(#[trigger] s[k])),
        trim_whitespace(s).len() > 0 ==> !is_whitespace_char(trim_whitespace(s)[0])
            && !is_whitespace_char(trim_whitespace(s).last()),
{
    lemma_trim_start_drops_whitespace(s);
    let i = choose|i: int|
        0 <= i <= s.len() && trim_start(s) == s.skip(i) && (forall|j: int|
            0 <= j < i ==> is_whitespace_char(#[trigger] s[j]));
    let t = s.skip(i);
    lemma_trim_end_drops_whitespace(t);
    let j = choose|j: int|
        0 <= j <= t.len() && trim_end(t) == t.take(j) && (forall|m: int|
            j <= m < t.len() ==> is_whitespace_char(#[trigger] t[m]));
    assert(t.take(j) =~= s.subrange(i, i + j));
    assert forall|k: int| i + j <= k < s.len() implies is_whitespace_char(#[trigger] s[k]) by {
        assert(s[k] == t[k - i]);
    }
    lemma_trim_start_first(s);
    lemma_trim_end_last(t);
    if trim_whitespace(s).len() > 0 {
        assert(trim_whitespace(s)[0] == t[0]);
    }
}

/// Whether `p` occurs in `s` at position `k`.
pub open spec fn starts_at(s: Seq<char>, k: int, p: Seq<char>) -> bool {
    0 <= k && k + p.len() <= s.len() && s.subrange(k, k + p.len()) == p
}

/// Whether `s` holds no `{`.
pub open spec fn brace_free(s: Seq<char>) -> bool {
    forall|i: int| 0 <= i < s.len() ==> s[i] != '{'
}

/// Whether `p` opens with `{` and holds no other `{`.
pub open spec fn opens_with_only_brace(p: Seq<char>) -> bool {
    p.len() > 0 && p[0] == '{' && brace_free(p.skip(1))
}

/// Whether every `{` of `s` opens an occurrence of `p1` or of `p2`.
pub open spec fn braces_open(s: Seq<char>, p1: Seq<char>, p2: Seq<char>) -> bool {
    forall|k: int| 0 <= k < s.len() && s[k] == '{' ==> starts_at(s, k, p1) || starts_at(s, k, p2)
}

/// Replacing a pattern that opens with `{` leaves a brace-free start alone.
proof fn lemma_replace_keeps_brace_free_start(s: Seq<char>, pat: Seq<char>, rep: Seq<char>, n: int)
    requires
        opens_with_only_brace(pat),
        0 <= n <= s.len(),
        brace_free(s.take(n)),
    ensures
        replace_all(s, pat, rep).len() >= n,
        replace_all(s, pat, rep).take(n) == s.take(n),
    decreases s.len(),
{
    if n > 0 {
        assert(s.take(n)[0] == s[0]);
        if pat.len() <= s.len() && s.take(pat.len() as int) == pat {
            assert(s.take(pat.len() as int)[0] == s[0]);
        }
        let rest = s.skip(1);
        assert(rest.take(n - 1) =~= s.take(n).skip(1));
        assert forall|i: int| 0 <= i < n - 1 implies #[trigger] rest.take(n - 1)[i] != '{' by {
            assert(rest.take(n - 1)[i] == s.take(n)[i + 1]);
        }
        lemma_replace_keeps_brace_free_start(rest, pat, rep, n - 1);
        assert(replace_all(s, pat, rep) == seq![s[0]] + replace_all(rest, pat, rep));
        assert(replace_all(s, pat, rep).take(n) =~= seq![s[0]] + replace_all(rest, pat, rep).take(
            n - 1,
        ));
        assert(s.take(n) =~= seq![s[0]] + rest.take(n - 1));
    } else {
        assert(replace_all(s, pat, rep).take(0) =~= s.take(0));
    }
}

/// After replacing `p1` by brace-free text, every `{` left opens `p2`, when
/// every `{` before opened `p1` or `p2`.
pub proof fn lemma_replace_leaves_other_braces(
    s: Seq<char>,
    p1: Seq<char>,
    rep: Seq<char>,
    p2: Seq<char>,
)
    requires
        opens_with_only_brace(p1),
        opens_with_only_brace(p2),
        brace_free(rep),
        braces_open(s, p1, p2),
    ensures
        forall|k: int|
            0 <= k < replace_all(s, p1, rep).len() && replace_all(s, p1, rep)[k] == '{'
                ==> starts_at(replace_all(s, p1, rep), k, p2),
    decreases s.len(),
{
    let out = replace_all(s, p1, rep);
    if s.len() == 0 {
    } else if p1.len() <= s.len() && s.take(p1.len() as int) == p1 {
        let rest = s.skip(p1.len() as int);
        assert forall|k: int| 0 <= k < rest.len() && rest[k] == '{' implies starts_at(rest, k, p1)
            || starts_at(rest, k, p2) by {
            assert(s[k + p1.len()] == '{');
            if starts_at(s, k + p1.len(), p1) {
                assert(rest.subrange(k, k + p1.len()) =~= s.subrange(
                    k + p1.len(),
                    k + p1.len() + p1.len(),
                ));
            } else {
                assert(starts_at(s, k + p1.len(), p2));
                assert(rest.subrange(k, k + p2.len()) =~= s.subrange(
                    k + p1.len(),
                    k + p1.len() + p2.len(),
                ));
            }
        }
        lemma_replace_leaves_other_braces(rest, p1, rep, p2);
        let r = replace_all(rest, p1, rep);
        assert(out == rep + r);
        assert forall|k: int| 0 <= k < out.len() && out[k] == '{' implies starts_at(out, k, p2) by {
            if k < rep.len() {
                assert(out[k] == rep[k]);
            } else {
                assert(out[k] == r[k - rep.len()]);
                assert(starts_at(r, k - rep.len(), p2));
                assert(out.subrange(k, k + p2.len()) =~= r.subrange(
                    k - rep.len(),
                    k - rep.len() + p2.len(),
                ));
            }
        }
    } else {
        let rest = s.skip(1);
        assert forall|k: int| 0 <= k < rest.len() && rest[k] == '{' implies starts_at(rest, k, p1)
            || starts_at(rest, k, p2) by {
            assert(s[k + 1] == '{');
            if starts_at(s, k + 1, p1) {
                assert(rest.subrange(k, k + p1.len()) =~= s.subrange(k + 1, k + 1 + p1.len()));
            } else {
                assert(starts_at(s, k + 1, p2));
                assert(rest.subrange(k, k + p2.len()) =~= s.subrange(k + 1, k + 1 + p2.len()));
            }
        }
        lemma_replace_leaves_other_braces(rest, p1, rep, p2);
        let r = replace_all(rest, p1, rep);
        assert(out == seq![s[0]] + r);
        assert forall|k: int| 0 <= k < out.len() && out[k] == '{' implies starts_at(out, k, p2) by {
            if k == 0 {
                assert(s[0] == '{');
                if starts_at(s, 0, p1) {
                    assert(s.subrange(0, p1.len() as int) =~= s.take(p1.len() as int));
                }
                assert(starts_at(s, 0, p2));
                let n = p2.len() - 1;
                assert(rest.take(n) =~= p2.skip(1)) by {
                    assert(s.subrange(0, p2.len() as int) == p2);
                    assert forall|i: int| 0 <= i < n implies rest.take(n)[i] == p2.skip(1)[i] by {
                        assert(rest.take(n)[i] == s[i + 1]);
                        assert(s.subrange(0, p2.len() as int)[i + 1] == s[i + 1]);
                    }
                }
                lemma_replace_keeps_brace_free_start(rest, p1, rep, n);
                assert(out.subrange(0, p2.len() as int) =~= seq![s[0]] + r.take(n));
                assert(p2 =~= seq![p2[0]] + p2.skip(1));
            } else {
                assert(out[k] == r[k - 1]);
                assert(starts_at(r, k - 1, p2));
                assert(out.subrange(k, k + p2.len()) =~= r.subrange(k - 1, k - 1 + p2.len()));
            }
        }
    }
}

/// Replacing a pattern by brace-free text leaves no `{` when every `{`
/// opened that pattern.
pub proof fn lemma_replace_removes_braces(s: Seq<char>, pat: Seq<char>, rep: Seq<char>)
    requires
        opens_with_only_brace(pat),
        brace_free(rep),
        forall|k: int| 0 <= k < s.len() && s[k] == '{' ==> starts_at(s, k, pat),
    ensures
        brace_free(replace_all(s, pat, rep)),
    decreases s.len(),
{
    let out = replace_all(s, pat, rep);
    if s.len() == 0 {
    } else if pat.len() <= s.len() && s.take(pat.len() as int) == pat {
        let rest = s.skip(pat.len() as int);
        assert forall|k: int| 0 <= k < rest.len() && rest[k] == '{' implies starts_at(
            rest,
            k,
            pat,
        ) by {
            assert(s[k + pat.len()] == '{');
            assert(rest.subrange(k, k + pat.len()) =~= s.subrange(
                k + pat.len(),
                k + pat.len() + pat.len(),
            ));
        }
        lemma_replace_removes_braces(rest, pat, rep);
        let r = replace_all(rest, pat, rep);
        assert(out == rep + r);
        assert forall|i: int| 0 <= i < out.len() implies out[i] != '{' by {
            if i < rep.len() {
                assert(out[i] == rep[i]);
            } else {
                assert(out[i] == r[i - rep.len()]);
            }
        }
    } else {
        let rest = s.skip(1);
        if s[0] == '{' {
            assert(s.subrange(0, pat.len() as int) =~= s.take(pat.len() as int));
        }
        assert forall|k: int| 0 <= k < rest.len() && rest[k] == '{' implies starts_at(
            rest,
            k,
            pat,
        ) by {
            assert(s[k + 1] == '{');
            assert(rest.subrange(k, k + pat.len()) =~= s.subrange(k + 1, k + 1 + pat.len()));
        }
        lemma_replace_removes_braces(rest, pat, rep);
        let r = replace_all(rest, pat, rep);
        assert(out == seq![s[0]] + r);
        assert forall|i: int| 0 <= i < out.len() implies out[i] != '{' by {
            if i > 0 {
                assert(out[i] == r[i - 1]);
            }
        }
    }
}

/// Replacing a pattern leaves alone a text that lacks the pattern's first char.
pub proof fn lemma_replace_all_untouched(w: Seq<char>, pat: Seq<char>, rep: Seq<char>)
    requires
        pat.len() > 0,
        !w.contains(pat[0]),
    ensures
        replace_all(w, pat, rep) == w,
    decreases w.len(),
{
    if w.len() > 0 {
        if pat.len() <= w.len() && w.take(pat.len() as int) == pat {
            assert(w.take(pat.len() as int)[0] == w[0]);
            assert(w.contains(w[0]));
        }
        let rest = w.skip(1);
        assert forall|i: int| 0 <= i < rest.len() implies rest[i] != pat[0] by {
            assert(rest[i] == w[i + 1]);
        }
        lemma_replace_all_untouched(rest, pat, rep);
        assert(w =~= seq![w[0]] + rest);
    }
}

/// Replacing in `a + b` replaces in `a` and in `b` apart, when no occurrence
/// of the pattern straddles the seam.
pub proof fn lemma_replace_all_split(a: Seq<char>, b: Seq<char>, pat: Seq<char>, rep: Seq<char>)
    requires
        forall|i: int|
            0 <= i < a.len() && a.len() < i + pat.len() ==> !#[trigger] starts_at(a + b, i, pat),
    ensures
        replace_all(a + b, pat, rep) == replace_all(a, pat, rep) + replace_all(b, pat, rep),
    decreases a.len(),
{
    let s = a + b;
    let p = pat.len() as int;
    if p == 0 {
    } else if a.len() == 0 {
        assert(s =~= b);
        assert(replace_all(a, pat, rep) =~= Seq::<char>::empty());
    } else if p <= s.len() && s.take(p) == pat {
        if p > a.len() {
            assert(s.subrange(0, p) =~= s.take(p));
            assert(starts_at(s, 0, pat));
        }
        assert(a.take(p) =~= s.take(p));
        let a2 = a.skip(p);
        assert(s.skip(p) =~= a2 + b);
        assert forall|i: int|
            0 <= i < a2.len() && a2.len() < i + pat.len() implies !#[trigger] starts_at(
            a2 + b,
            i,
            pat,
        ) by {
            if starts_at(a2 + b, i, pat) {
                assert((a2 + b).subrange(i, i + p) =~= s.subrange(i + p, i + p + p));
                assert(starts_at(s, i + p, pat));
            }
        }
        lemma_replace_all_split(a2, b, pat, rep);
        assert(replace_all(s, pat, rep) =~= rep + replace_all(a2 + b, pat, rep));
    } else {
        if p <= a.len() && a.take(p) == pat {
            assert(a.take(p) =~= s.take(p));
        }
        let a2 = a.skip(1);
        assert(s.skip(1) =~= a2 + b);
        assert forall|i: int|
            0 <= i < a2.len() && a2.len() < i + pat.len() implies !#[trigger] starts_at(
            a2 + b,
            i,
            pat,
        ) by {
            if starts_at(a2 + b, i, pat) {
                assert((a2 + b).subrange(i, i + p) =~= s.subrange(i + 1, i + 1 + p));
                assert(starts_at(s, i + 1, pat));
            }
        }
        lemma_replace_all_split(a2, b, pat, rep);
        assert(s[0] == a[0]);
        assert(replace_all(s, pat, rep) =~= seq![a[0]] + replace_all(a2 + b, pat, rep));
        assert(replace_all(a, pat, rep) =~= seq![a[0]] + replace_all(a2, pat, rep));
    }
}

/// Replacing a pattern keeps a run `w` in place when `w` lacks the pattern's
/// first char and the pattern lacks the run's first char.
pub proof fn lemma_replace_all_keeps_run(
    x: Seq<char>,
    w: Seq<char>,
    y: Seq<char>,
    pat: Seq<char>,
    rep: Seq<char>,
)
    requires
        pat.len() > 0,
        w.len() > 0,
        !w.contains(pat[0]),
        !pat.contains(w[0]),
    ensures
        replace_all(x + w + y, pat, rep) == replace_all(x, pat, rep) + w + replace_all(
            y,
            pat,
            rep,
        ),
{
    let p = pat.len() as int;
    let wy = w + y;
    assert(x + w + y =~= x + wy);
    assert forall|i: int| 0 <= i < x.len() && x.len() < i + p implies !#[trigger] starts_at(
        x + wy,
        i,
        pat,
    ) by {
        if starts_at(x + wy, i, pat) {
            let j = x.len() - i;
            assert((x + wy).subrange(i, i + p)[j] == (x + wy)[x.len() as int]);
            assert((x + wy)[x.len() as int] == w[0]);
            assert(pat[j] == w[0]);
            assert(pat.contains(w[0]));
        }
    }
    lemma_replace_all_split(x, wy, pat, rep);
    assert forall|i: int| 0 <= i < w.len() && w.len() < i + p implies !#[trigger] starts_at(
        w + y,
        i,
        pat,
    ) by {
        if starts_at(w + y, i, pat) {
            assert((w + y).subrange(i, i + p)[0] == w[i]);
            assert(w.contains(w[i]));
        }
    }
    lemma_replace_all_split(w, y, pat, rep);
    lemma_replace_all_untouched(w, pat, rep);
    assert(replace_all(x + w + y, pat, rep) =~= replace_all(x, pat, rep) + w + replace_all(
        y,
        pat,
        rep,
    ));
}

/// Replacing one placeholder that opens with `{`, standing once in a text
/// whose other chars hold no `{`, puts the replacement in its place.
pub proof fn lemma_replace_sole_placeholder(a: Seq<char>, p: Seq<char>, b: Seq<char>, rep: Seq<char>)
    requires
        opens_with_only_brace(p),
        brace_free(a),
        brace_free(b),
    ensures
        replace_all(a + p + b, p, rep) == a + rep + b,
{
    let pb = p + b;
    assert(a + p + b =~= a + pb);
    assert forall|i: int| 0 <= i < a.len() && a.len() < i + p.len() implies !#[trigger] starts_at(
        a + pb,
        i,
        p,
    ) by {
        if starts_at(a + pb, i, p) {
            assert((a + pb).subrange(i, i + p.len())[0] == a[i]);
        }
    }
    lemma_replace_all_split(a, pb, p, rep);
    assert(!a.contains(p[0]));
    assert(!b.contains(p[0]));
    lemma_replace_all_untouched(a, p, rep);
    lemma_replace_all_untouched(b, p, rep);
    assert(pb.take(p.len() as int) =~= p);
    assert(pb.skip(p.len() as int) =~= b);
    assert(replace_all(pb, p, rep) == rep + replace_all(b, p, rep));
    assert(replace_all(a + p + b, p, rep) =~= a + rep + b);
}

/// Replacing a placeholder leaves alone a text whose only `{` opens another
/// placeholder that differs from it in its second char.
pub proof fn lemma_replace_other_placeholder(
    a: Seq<char>,
    q: Seq<char>,
    b: Seq<char>,
    p: Seq<char>,
    rep: Seq<char>,
)
    requires
        opens_with_only_brace(p),
        opens_with_only_brace(q),
        p.len() >= 2,
        q.len() >= 2,
        p[1] != q[1],
        brace_free(a),
        brace_free(b),
    ensures
        replace_all(a + q + b, p, rep) == a + q + b,
{
    let qb = q + b;
    assert(a + q + b =~= a + qb);
    assert forall|i: int| 0 <= i < a.len() && a.len() < i + p.len() implies !#[trigger] starts_at(
        a + qb,
        i,
        p,
    ) by {
        if starts_at(a + qb, i, p) {
            assert((a + qb).subrange(i, i + p.len())[0] == a[i]);
        }
    }
    lemma_replace_all_split(a, qb, p, rep);
    assert(!a.contains(p[0]));
    lemma_replace_all_untouched(a, p, rep);
    if p.len() <= qb.len() && qb.take(p.len() as int) == p {
        assert(qb.take(p.len() as int)[1] == q[1]);
    }
    let tail = qb.skip(1);
    assert(tail =~= q.skip(1) + b);
    assert forall|i: int| 0 <= i < tail.len() implies tail[i] != p[0] by {
        if i < q.len() - 1 {
            assert(tail[i] == q.skip(1)[i]);
        } else {
            assert(tail[i] == b[i - (q.len() - 1)]);
        }
    }
    lemma_replace_all_untouched(tail, p, rep);
    assert(qb =~= seq![qb[0]] + tail);
    assert(replace_all(a + q + b, p, rep) =~= a + q + b);
}

} // verus!
