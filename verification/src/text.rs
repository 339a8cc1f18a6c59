//! Character-level text helpers: whitespace trimming, substring
//! replacement, decimal formatting and parsing, field splitting and
//! lexicographic comparison, each with a mathematical specification.

use vstd::prelude::*;
use vstd::string::*;

verus! {

/// `char::is_whitespace`: the Unicode `White_Space` property.
pub open spec fn is_ws(c: char) -> bool {
    let u = c as u32;
    ||| 0x09 <= u <= 0x0d
    ||| u == 0x20
    ||| u == 0x85
    ||| u == 0xa0
    ||| u == 0x1680
    ||| 0x2000 <= u <= 0x200a
    ||| u == 0x2028
    ||| u == 0x2029
    ||| u == 0x202f
    ||| u == 0x205f
    ||| u == 0x3000
}

pub fn is_whitespace(c: char) -> (b: bool)
    ensures
        b == is_ws(c),
{
    let u = c as u32;
    (0x09 <= u && u <= 0x0d) || u == 0x20 || u == 0x85 || u == 0xa0 || u == 0x1680 || (0x2000
        <= u && u <= 0x200a) || u == 0x2028 || u == 0x2029 || u == 0x202f || u == 0x205f || u
        == 0x3000
}

/// The characters of `s` as a vector.
pub fn chars_of(s: &str) -> (r: Vec<char>)
    ensures
        r@ == s@,
{
    let n = s.unicode_len();
    let mut r: Vec<char> = Vec::new();
    let mut i: usize = 0;
    while i < n
        invariant
            n == s@.len(),
            i <= n,
            r@ == s@.take(i as int),
        decreases n - i,
    {
        let c = s.get_char(i);
        r.push(c);
        i = i + 1;
        assert(r@ =~= s@.take(i as int));
    }
    assert(r@ =~= s@);
    r
}

/// The views of a list of strings.
pub open spec fn strs_view(v: Seq<String>) -> Seq<Seq<char>> {
    v.map_values(|s: String| s@)
}

/// Appends one character to a string (`String::push`).
#[verifier::external_body]
fn push_char(s: &mut String, c: char)
    ensures
        final(s)@ == old(s)@.push(c),
{
    s.push(c);
}

/// The string holding exactly the characters of `v`.
pub fn string_of(v: &Vec<char>) -> (r: String)
    ensures
        r@ == v@,
{
    let mut r = String::new();
    let mut i: usize = 0;
    while i < v.len()
        invariant
            i <= v.len(),
            r@ == v@.take(i as int),
        decreases v.len() - i,
    {
        push_char(&mut r, v[i]);
        i = i + 1;
        assert(r@ =~= v@.take(i as int));
    }
    assert(r@ =~= v@);
    r
}


/// Drops the leading whitespace of `s` (`str::trim_start`).
pub open spec fn trim_start(s: Seq<char>) -> Seq<char>
    decreases s.len(),
{
    if s.len() > 0 && is_ws(s[0]) {
        trim_start(s.drop_first())
    } else {
        s
    }
}

/// Drops the trailing whitespace of `s` (`str::trim_end`).
pub open spec fn trim_end(s: Seq<char>) -> Seq<char>
    decreases s.len(),
{
    if s.len() > 0 && is_ws(s.last()) {
        trim_end(s.drop_last())
    } else {
        s
    }
}

/// `str::trim`: leading and trailing whitespace removed.
pub open spec fn trim(s: Seq<char>) -> Seq<char> {
    trim_end(trim_start(s))
}

proof fn lemma_trim_start_skip(s: Seq<char>, i: int)
    requires
        0 <= i <= s.len(),
        forall|j: int| 0 <= j < i ==> is_ws(#[trigger] s[j]),
    ensures
        trim_start(s) == trim_start(s.skip(i)),
    decreases i,
{
    if i > 0 {
        assert(s.drop_first().skip(i - 1) =~= s.skip(i));
        lemma_trim_start_skip(s.drop_first(), i - 1);
    } else {
        assert(s.skip(0) =~= s);
    }
}

proof fn lemma_trim_end_take(s: Seq<char>, i: int)
    requires
        0 <= i <= s.len(),
        forall|j: int| i <= j < s.len() ==> is_ws(#[trigger] s[j]),
    ensures
        trim_end(s) == trim_end(s.take(i)),
    decreases s.len() - i,
{
    if i < s.len() {
        assert(s.drop_last().take(i) =~= s.take(i));
        lemma_trim_end_take(s.drop_last(), i);
    } else {
        assert(s.take(i) =~= s);
    }
}

/// `str::trim` on a character vector.
pub fn trim_chars(s: &Vec<char>) -> (r: Vec<char>)
    ensures
        r@ == trim(s@),
{
    let n = s.len();
    let mut a: usize = 0;
    while a < n && is_whitespace(s[a])
        invariant
            n == s@.len(),
            a <= n,
            forall|j: int| 0 <= j < a ==> is_ws(#[trigger] s@[j]),
        decreases n - a,
    {
        a = a + 1;
    }
    proof {
        lemma_trim_start_skip(s@, a as int);
    }
    let mut b: usize = n;
    while b > a && is_whitespace(s[b - 1])
        invariant
            n == s@.len(),
            a <= b <= n,
            forall|j: int| b <= j < n ==> is_ws(#[trigger] s@[j]),
        decreases b - a,
    {
        b = b - 1;
    }
    let ghost t = s@.skip(a as int);
    assert(trim_start(t) == t) by {
        if t.len() > 0 {
            assert(t[0] == s@[a as int]);
        }
    }
    proof {
        assert forall|j: int| b - a <= j < t.len() implies is_ws(#[trigger] t[j]) by {
            assert(t[j] == s@[a + j]);
        }
        lemma_trim_end_take(t, b - a);
        let u = t.take(b - a);
        if u.len() > 0 {
            assert(u.last() == s@[b - 1]);
        }
        assert(trim_end(u) == u);
    }
    let mut r: Vec<char> = Vec::new();
    let mut i: usize = a;
    while i < b
        invariant
            a <= i <= b <= n,
            n == s@.len(),
            r@ == s@.subrange(a as int, i as int),
        decreases b - i,
    {
        r.push(s[i]);
        i = i + 1;
        assert(r@ =~= s@.subrange(a as int, i as int));
    }
    assert(r@ =~= t.take(b - a));
    r
}

/// Whether `pat` occurs in `s` at position `i`.
pub open spec fn matches_at(s: Seq<char>, pat: Seq<char>, i: int) -> bool {
    0 <= i && i + pat.len() <= s.len() && s.subrange(i, i + pat.len()) == pat
}

/// `str::replace`: every non-overlapping occurrence of `pat`, found from
/// left to right, replaced by `rep`.
pub open spec fn replace(s: Seq<char>, pat: Seq<char>, rep: Seq<char>) -> Seq<char>
    recommends
        pat.len() > 0,
    decreases s.len(),
{
    if s.len() == 0 || pat.len() == 0 {
        s
    } else if matches_at(s, pat, 0) {
        rep + replace(s.skip(pat.len() as int), pat, rep)
    } else {
        seq![s[0]] + replace(s.drop_first(), pat, rep)
    }
}

fn matches_at_exec(s: &Vec<char>, pat: &Vec<char>, i: usize) -> (b: bool)
    requires
        i <= s.len(),
    ensures
        b == matches_at(s@, pat@, i as int),
{
    if pat.len() > s.len() - i {
        return false;
    }
    let mut k: usize = 0;
    while k < pat.len()
        invariant
            i + pat.len() <= s.len(),
            k <= pat.len(),
            forall|j: int| 0 <= j < k ==> s@[i + j] == pat@[j],
        decreases pat.len() - k,
    {
        if s[i + k] != pat[k] {
            assert(s@.subrange(i as int, i + pat.len())[k as int] != pat@[k as int]);
            return false;
        }
        k = k + 1;
    }
    assert(s@.subrange(i as int, i + pat.len()) =~= pat@);
    true
}

/// `str::replace` on character vectors.
pub fn replace_chars(s: &Vec<char>, pat: &Vec<char>, rep: &Vec<char>) -> (r: Vec<char>)
    requires
        pat.len() > 0,
    ensures
        r@ == replace(s@, pat@, rep@),
{
    let mut r: Vec<char> = Vec::new();
    let mut i: usize = 0;
    assert(s@.skip(0) =~= s@);
    assert(r@ + replace(s@, pat@, rep@) =~= replace(s@, pat@, rep@));
    while i < s.len()
        invariant
            pat.len() > 0,
            i <= s.len(),
            r@ + replace(s@.skip(i as int), pat@, rep@) == replace(s@, pat@, rep@),
        decreases s.len() - i,
    {
        let ghost rest = s@.skip(i as int);
        if matches_at_exec(s, pat, i) {
            proof {
                assert(rest.subrange(0, pat@.len() as int) =~= s@.subrange(
                    i as int,
                    i + pat@.len(),
                ));
                assert(rest.skip(pat@.len() as int) =~= s@.skip(i + pat@.len()));
            }
            let mut k: usize = 0;
            let ghost r0 = r@;
            while k < rep.len()
                invariant
                    k <= rep.len(),
                    r@ == r0 + rep@.take(k as int),
                decreases rep.len() - k,
            {
                r.push(rep[k]);
                k = k + 1;
                assert(r@ =~= r0 + rep@.take(k as int));
            }
            assert(rep@.take(rep@.len() as int) =~= rep@);
            assert(r0 + replace(rest, pat@, rep@) =~= r@ + replace(
                s@.skip(i + pat@.len()),
                pat@,
                rep@,
            ));
            i = i + pat.len();
        } else {
            proof {
                if rest.len() >= pat@.len() {
                    assert(rest.subrange(0, pat@.len() as int) =~= s@.subrange(
                        i as int,
                        i + pat@.len(),
                    ));
                }
                assert(rest.drop_first() =~= s@.skip(i + 1));
                assert(rest[0] == s@[i as int]);
            }
            let ghost r0 = r@;
            r.push(s[i]);
            assert(r0 + (seq![s@[i as int]] + replace(s@.skip(i + 1), pat@, rep@)) =~= r@
                + replace(s@.skip(i + 1), pat@, rep@));
            i = i + 1;
        }
    }
    assert(s@.skip(s@.len() as int) =~= Seq::<char>::empty());
    assert(r@ + Seq::<char>::empty() =~= r@);
    r
}


/// The ASCII digit for a value below ten.
pub open spec fn digit_char(d: nat) -> char {
    (d + 48) as char
}

/// Decimal representation of `n`, without sign or leading zeros
/// (`u64::to_string`).
pub open spec fn decimal(n: nat) -> Seq<char>
    decreases n,
{
    if n < 10 {
        seq![digit_char(n)]
    } else {
        decimal(n / 10).push(digit_char(n % 10))
    }
}

fn digit(d: u64) -> (c: char)
    requires
        d < 10,
    ensures
        c == digit_char(d as nat),
{
    let b: u8 = 48u8 + (d as u8);
    b as char
}

/// The decimal digits of `n`.
pub fn decimal_chars(n: u64) -> (r: Vec<char>)
    ensures
        r@ == decimal(n as nat),
    decreases n,
{
    if n < 10 {
        let mut v: Vec<char> = Vec::new();
        v.push(digit(n));
        v
    } else {
        let mut v = decimal_chars(n / 10);
        v.push(digit(n % 10));
        v
    }
}

/// Whether `c` is an ASCII decimal digit.
pub open spec fn is_digit(c: char) -> bool {
    '0' <= c <= '9'
}

/// Whether every character of `s` is an ASCII decimal digit.
pub open spec fn all_digits(s: Seq<char>) -> bool {
    forall|i: int| 0 <= i < s.len() ==> is_digit(#[trigger] s[i])
}

/// The value of the digit character `c`.
pub open spec fn digit_value(c: char) -> nat {
    (c as int - 48) as nat
}

/// The value of a string of decimal digits, most significant first.
pub open spec fn digits_value(s: Seq<char>) -> nat
    decreases s.len(),
{
    if s.len() == 0 {
        0
    } else {
        digits_value(s.drop_last()) * 10 + digit_value(s.last())
    }
}

/// The digits of an unsigned number: an optional leading `+` dropped.
pub open spec fn unsigned_digits(s: Seq<char>) -> Seq<char> {
    if s.len() > 0 && s[0] == '+' {
        s.drop_first()
    } else {
        s
    }
}

/// `str::parse::<u64>`: an optional `+` followed by at least one ASCII
/// digit, whose value fits in a `u64`.
pub open spec fn parse_u64(s: Seq<char>) -> Option<u64> {
    let d = unsigned_digits(s);
    if d.len() > 0 && all_digits(d) && digits_value(d) <= u64::MAX {
        Some(digits_value(d) as u64)
    } else {
        None
    }
}

proof fn lemma_digits_value_monotone(s: Seq<char>, k: int)
    requires
        0 <= k <= s.len(),
        all_digits(s),
    ensures
        digits_value(s.take(k)) <= digits_value(s),
    decreases s.len() - k,
{
    if k < s.len() {
        assert(s.drop_last().take(k) =~= s.take(k));
        assert(all_digits(s.drop_last())) by {
            assert forall|i: int| 0 <= i < s.drop_last().len() implies is_digit(
                #[trigger] s.drop_last()[i],
            ) by {
                assert(s.drop_last()[i] == s[i]);
            }
        }
        lemma_digits_value_monotone(s.drop_last(), k);
    } else {
        assert(s.take(k) =~= s);
    }
}

/// `str::parse::<u64>` on a character vector.
pub fn parse_u64_chars(s: &Vec<char>) -> (r: Option<u64>)
    ensures
        r == parse_u64(s@),
{
    let start: usize = if s.len() > 0 && s[0] == '+' {
        1
    } else {
        0
    };
    let ghost d = unsigned_digits(s@);
    assert(d =~= s@.skip(start as int));
    if start == s.len() {
        return None;
    }
    let mut acc: u64 = 0;
    let mut i: usize = start;
    assert(d.take(0) =~= Seq::<char>::empty());
    while i < s.len()
        invariant
            start <= i <= s.len(),
            d == s@.skip(start as int),
            d == unsigned_digits(s@),
            acc as nat == digits_value(d.take(i - start)),
            all_digits(d.take(i - start)),
        decreases s.len() - i,
    {
        let c = s[i];
        assert(d[i - start] == c);
        if !('0' <= c && c <= '9') {
            assert(!all_digits(d));
            return None;
        }
        let dv: u64 = (c as u32 - 48) as u64;
        let ghost t1 = d.take(i + 1 - start);
        assert(t1.drop_last() =~= d.take(i - start));
        assert(t1.last() == c);
        assert(all_digits(t1)) by {
            assert forall|j: int| 0 <= j < t1.len() implies is_digit(#[trigger] t1[j]) by {
                if j < t1.len() - 1 {
                    assert(t1[j] == d.take(i - start)[j]);
                }
            }
        }
        if acc > (u64::MAX - dv) / 10 {
            proof {
                assert(digits_value(t1) > u64::MAX) by (nonlinear_arith)
                    requires
                        digits_value(t1) == acc * 10 + dv,
                        acc > (u64::MAX - dv) / 10,
                        dv < 10,
                ;
                if all_digits(d) {
                    lemma_digits_value_monotone(d, i + 1 - start);
                }
            }
            return None;
        }
        assert(acc * 10 + dv <= u64::MAX) by (nonlinear_arith)
            requires
                acc <= (u64::MAX - dv) / 10,
                dv < 10,
        ;
        acc = acc * 10 + dv;
        i = i + 1;
    }
    assert(d.take(i - start) =~= d);
    Some(acc)
}

/// Index of the first `sep` in `s`, or the length of `s` when there is none.
pub open spec fn first_sep(s: Seq<char>, sep: char) -> int
    decreases s.len(),
{
    if s.len() == 0 {
        0
    } else if s[0] == sep {
        0
    } else {
        1 + first_sep(s.drop_first(), sep)
    }
}

/// The `i`-th piece of `s` split at every `sep` (`str::split`), or `None`
/// when `s` has fewer pieces.
pub open spec fn field(s: Seq<char>, sep: char, i: nat) -> Option<Seq<char>>
    decreases i,
{
    let j = first_sep(s, sep);
    if i == 0 {
        Some(s.take(j))
    } else if j < s.len() {
        field(s.skip(j + 1), sep, (i - 1) as nat)
    } else {
        None
    }
}

proof fn lemma_first_sep_unique(s: Seq<char>, sep: char, j: int)
    requires
        0 <= j <= s.len(),
        forall|k: int| 0 <= k < j ==> s[k] != sep,
        j < s.len() ==> s[j] == sep,
    ensures
        first_sep(s, sep) == j,
    decreases s.len(),
{
    if s.len() > 0 && s[0] != sep {
        assert forall|k: int| 0 <= k < j - 1 implies s.drop_first()[k] != sep by {
            assert(s.drop_first()[k] == s[k + 1]);
        }
        if j - 1 < s.drop_first().len() {
            assert(s.drop_first()[j - 1] == s[j]);
        }
        lemma_first_sep_unique(s.drop_first(), sep, j - 1);
    }
}

/// Splits `s` at its first `sep`: the part before it, and the part after it
/// when there is one.
pub fn split_first(s: &Vec<char>, sep: char) -> (r: (Vec<char>, Option<Vec<char>>))
    ensures
        r.0@ == s@.take(first_sep(s@, sep)),
        r.1 is Some <==> first_sep(s@, sep) < s@.len(),
        r.1 matches Some(rest) ==> rest@ == s@.skip(first_sep(s@, sep) + 1),
{
    let mut head: Vec<char> = Vec::new();
    let mut i: usize = 0;
    while i < s.len() && s[i] != sep
        invariant
            i <= s.len(),
            head@ == s@.take(i as int),
            forall|k: int| 0 <= k < i ==> s@[k] != sep,
        decreases s.len() - i,
    {
        head.push(s[i]);
        i = i + 1;
        assert(head@ =~= s@.take(i as int));
    }
    proof {
        lemma_first_sep_unique(s@, sep, i as int);
    }
    if i == s.len() {
        (head, None)
    } else {
        let mut rest: Vec<char> = Vec::new();
        let mut k: usize = i + 1;
        while k < s.len()
            invariant
                i < k <= s.len(),
                rest@ == s@.subrange(i + 1, k as int),
            decreases s.len() - k,
        {
            rest.push(s[k]);
            k = k + 1;
            assert(rest@ =~= s@.subrange(i + 1, k as int));
        }
        assert(rest@ =~= s@.skip(i + 1));
        (head, Some(rest))
    }
}

/// Lexicographic order on character sequences by code point, which is the
/// order of `String`'s `Ord` (byte order of UTF-8).
pub open spec fn lex_le(a: Seq<char>, b: Seq<char>) -> bool
    decreases a.len(),
{
    if a.len() == 0 {
        true
    } else if b.len() == 0 {
        false
    } else if a[0] != b[0] {
        (a[0] as int) < (b[0] as int)
    } else {
        lex_le(a.drop_first(), b.drop_first())
    }
}

/// Compares two character vectors in lexicographic order.
pub fn lex_le_chars(a: &Vec<char>, b: &Vec<char>) -> (r: bool)
    ensures
        r == lex_le(a@, b@),
{
    let mut i: usize = 0;
    assert(a@.skip(0) =~= a@);
    assert(b@.skip(0) =~= b@);
    while i < a.len() && i < b.len() && a[i] == b[i]
        invariant
            i <= a.len(),
            i <= b.len(),
            lex_le(a@, b@) == lex_le(a@.skip(i as int), b@.skip(i as int)),
        decreases a.len() - i,
    {
        let ghost a1 = a@.skip(i as int);
        let ghost b1 = b@.skip(i as int);
        assert(a1.drop_first() =~= a@.skip(i + 1));
        assert(b1.drop_first() =~= b@.skip(i + 1));
        assert(a1[0] == a@[i as int] && b1[0] == b@[i as int]);
        i = i + 1;
    }
    let ghost a1 = a@.skip(i as int);
    let ghost b1 = b@.skip(i as int);
    if i == a.len() {
        assert(a1.len() == 0);
        true
    } else if i == b.len() {
        assert(b1.len() == 0);
        false
    } else {
        assert(a1[0] == a@[i as int] && b1[0] == b@[i as int]);
        a[i] < b[i]
    }
}


/// `lex_le` is a total order: reflexive, antisymmetric, transitive and
/// total.
pub proof fn lemma_lex_le_total_order()
    ensures
        forall|a: Seq<char>| #[trigger] lex_le(a, a),
        forall|a: Seq<char>, b: Seq<char>| #[trigger] lex_le(a, b) && #[trigger] lex_le(b, a) ==> a
            == b,
        forall|a: Seq<char>, b: Seq<char>, c: Seq<char>|
            #[trigger] lex_le(a, b) && #[trigger] lex_le(b, c) ==> lex_le(a, c),
        forall|a: Seq<char>, b: Seq<char>| #[trigger] lex_le(a, b) || #[trigger] lex_le(b, a),
{
    assert forall|a: Seq<char>| #[trigger] lex_le(a, a) by {
        lemma_lex_le_refl(a);
    }
    assert forall|a: Seq<char>, b: Seq<char>| #[trigger] lex_le(a, b) && #[trigger] lex_le(
        b,
        a,
    ) implies a == b by {
        lemma_lex_le_antisym(a, b);
    }
    assert forall|a: Seq<char>, b: Seq<char>, c: Seq<char>|
        #[trigger] lex_le(a, b) && #[trigger] lex_le(b, c) implies lex_le(a, c) by {
        lemma_lex_le_trans(a, b, c);
    }
    assert forall|a: Seq<char>, b: Seq<char>| #[trigger] lex_le(a, b) || #[trigger] lex_le(
        b,
        a,
    ) by {
        lemma_lex_le_total(a, b);
    }
}

proof fn lemma_lex_le_refl(a: Seq<char>)
    ensures
        lex_le(a, a),
    decreases a.len(),
{
    if a.len() > 0 {
        lemma_lex_le_refl(a.drop_first());
    }
}

proof fn lemma_lex_le_antisym(a: Seq<char>, b: Seq<char>)
    requires
        lex_le(a, b),
        lex_le(b, a),
    ensures
        a == b,
    decreases a.len(),
{
    if a.len() == 0 {
        assert(b.len() == 0);
        assert(a =~= b);
    } else {
        assert(b.len() > 0);
        assert(a[0] == b[0]);
        lemma_lex_le_antisym(a.drop_first(), b.drop_first());
        assert(a =~= seq![a[0]] + a.drop_first());
        assert(b =~= seq![b[0]] + b.drop_first());
    }
}

proof fn lemma_lex_le_trans(a: Seq<char>, b: Seq<char>, c: Seq<char>)
    requires
        lex_le(a, b),
        lex_le(b, c),
    ensures
        lex_le(a, c),
    decreases a.len(),
{
    if a.len() > 0 {
        assert(b.len() > 0);
        assert(c.len() > 0);
        if a[0] == b[0] && b[0] == c[0] {
            lemma_lex_le_trans(a.drop_first(), b.drop_first(), c.drop_first());
        }
    }
}

proof fn lemma_lex_le_total(a: Seq<char>, b: Seq<char>)
    ensures
        lex_le(a, b) || lex_le(b, a),
    decreases a.len(),
{
    if a.len() > 0 && b.len() > 0 {
        if a[0] == b[0] {
            lemma_lex_le_total(a.drop_first(), b.drop_first());
        } else {
            assert((a[0] as int) != (b[0] as int));
        }
    }
}


/// Appends the characters of `s` to `v`.
pub fn push_str_chars(v: &mut Vec<char>, s: &str)
    ensures
        final(v)@ == old(v)@ + s@,
{
    let c = chars_of(s);
    let mut i: usize = 0;
    let ghost v0 = v@;
    while i < c.len()
        invariant
            i <= c.len(),
            v@ == v0 + c@.take(i as int),
        decreases c.len() - i,
    {
        v.push(c[i]);
        i = i + 1;
        assert(v@ =~= v0 + c@.take(i as int));
    }
    assert(c@.take(i as int) =~= c@);
}

/// Appends the characters of `s` to `v`.
pub fn push_chars(v: &mut Vec<char>, s: &Vec<char>)
    ensures
        final(v)@ == old(v)@ + s@,
{
    let mut i: usize = 0;
    let ghost v0 = v@;
    while i < s.len()
        invariant
            i <= s.len(),
            v@ == v0 + s@.take(i as int),
        decreases s.len() - i,
    {
        v.push(s[i]);
        i = i + 1;
        assert(v@ =~= v0 + s@.take(i as int));
    }
    assert(s@.take(i as int) =~= s@);
}

/// `prefix` followed by the decimal digits of `n`.
pub fn labelled_number(prefix: &str, n: u64) -> (r: String)
    ensures
        r@ == prefix@ + decimal(n as nat),
{
    let mut v = chars_of(prefix);
    let d = decimal_chars(n);
    push_chars(&mut v, &d);
    string_of(&v)
}

/// A number below one hundred written with at least two digits (`{:02}`).
pub open spec fn pad2(n: nat) -> Seq<char> {
    if n < 10 {
        seq!['0'] + decimal(n)
    } else {
        decimal(n)
    }
}

/// The text `m:ss / M:SS` of a playback position and a duration, both in
/// whole seconds.
pub open spec fn clock_text(pos: nat, dur: nat) -> Seq<char> {
    decimal(pos / 60) + seq![':'] + pad2(pos % 60) + seq![' ', '/', ' '] + decimal(dur / 60)
        + seq![':'] + pad2(dur % 60)
}

fn push_pad2(v: &mut Vec<char>, n: u64)
    requires
        n < 100,
    ensures
        final(v)@ == old(v)@ + pad2(n as nat),
{
    if n < 10 {
        v.push('0');
    }
    let d = decimal_chars(n);
    let ghost v1 = v@;
    push_chars(v, &d);
    if n < 10 {
        assert(v@ =~= old(v)@ + (seq!['0'] + decimal(n as nat)));
    }
}

/// Formats a playback position and a duration as `m:ss / M:SS`.
pub fn format_clock(pos: u64, dur: u64) -> (r: String)
    ensures
        r@ == clock_text(pos as nat, dur as nat),
{
    let mut v = decimal_chars(pos / 60);
    v.push(':');
    push_pad2(&mut v, pos % 60);
    v.push(' ');
    v.push('/');
    v.push(' ');
    let d = decimal_chars(dur / 60);
    push_chars(&mut v, &d);
    v.push(':');
    push_pad2(&mut v, dur % 60);
    assert(v@ =~= clock_text(pos as nat, dur as nat));
    string_of(&v)
}


/// String order is code-point order: `a` comes no later than `b` exactly
/// when `a` is a prefix of `b`, or at the first position where they differ
/// `a`'s character has the smaller code point.
pub proof fn law_lex_le_code_point_order(a: Seq<char>, b: Seq<char>)
    ensures
        lex_le(a, b) <==> (a.len() <= b.len() && a == b.take(a.len() as int)) || exists|i: int|
            0 <= i < a.len() && i < b.len() && a.take(i) == b.take(i) && (a[i] as int) < (
            b[i] as int),
    decreases a.len(),
{
    if a.len() == 0 {
        assert(a =~= b.take(0));
    } else if b.len() == 0 {
        assert(!(a.len() <= b.len()));
        assert(!exists|i: int| 0 <= i < a.len() && i < b.len() && a.take(i) == b.take(i) && (
        a[i] as int) < (b[i] as int));
    } else if a[0] != b[0] {
        assert((a[0] as int) != (b[0] as int));
        if (a[0] as int) < (b[0] as int) {
            assert(a.take(0) =~= b.take(0));
        } else {
            assert(!(a.len() <= b.len() && a == b.take(a.len() as int))) by {
                if a.len() <= b.len() {
                    assert(b.take(a.len() as int)[0] == b[0]);
                    assert(a[0] != b.take(a.len() as int)[0]);
                }
            }
            assert forall|i: int|
                0 <= i < a.len() && i < b.len() && a.take(i) == b.take(i) implies !((a[i] as int) < (
                b[i] as int)) by {
                if i > 0 {
                    assert(a.take(i)[0] == b.take(i)[0]);
                }
            }
        }
    } else {
        let a1 = a.drop_first();
        let b1 = b.drop_first();
        law_lex_le_code_point_order(a1, b1);
        if a1.len() <= b1.len() && a1 == b1.take(a1.len() as int) {
            assert forall|k: int| 0 <= k < a.len() implies a[k] == b.take(a.len() as int)[k] by {
                if k > 0 {
                    assert(a[k] == a1[k - 1]);
                    assert(b1.take(a1.len() as int)[k - 1] == b1[k - 1]);
                    assert(b[k] == b1[k - 1]);
                }
            }
            assert(a =~= b.take(a.len() as int));
        }
        if a.len() <= b.len() && a == b.take(a.len() as int) {
            assert(a1 =~= b1.take(a1.len() as int));
        }
        if exists|i: int|
            0 <= i < a1.len() && i < b1.len() && a1.take(i) == b1.take(i) && (a1[i] as int) < (
            b1[i] as int) {
            let i = choose|i: int|
                0 <= i < a1.len() && i < b1.len() && a1.take(i) == b1.take(i) && (a1[i] as int) < (
                b1[i] as int);
            assert(a.take(i + 1) =~= seq![a[0]] + a1.take(i));
            assert(b.take(i + 1) =~= seq![b[0]] + b1.take(i));
            assert(a[i + 1] == a1[i] && b[i + 1] == b1[i]);
        }
        if exists|i: int|
            0 <= i < a.len() && i < b.len() && a.take(i) == b.take(i) && (a[i] as int) < (
            b[i] as int) {
            let i = choose|i: int|
                0 <= i < a.len() && i < b.len() && a.take(i) == b.take(i) && (a[i] as int) < (
                b[i] as int);
            assert(i > 0);
            assert(a1.take(i - 1) =~= a.take(i).drop_first());
            assert(b1.take(i - 1) =~= b.take(i).drop_first());
            assert(a1[i - 1] == a[i] && b1[i - 1] == b[i]);
        }
    }
}

/// Two single characters are ordered by their code points.
pub proof fn law_lex_le_single_chars(c: char, d: char)
    ensures
        lex_le(seq![c], seq![d]) <==> (c as int) <= (d as int),
{
    reveal_with_fuel(lex_le, 2);
    let a = seq![c];
    let b = seq![d];
    assert(a[0] == c && b[0] == d);
    if c == d {
        assert(a.drop_first() =~= Seq::<char>::empty());
        assert(b.drop_first() =~= Seq::<char>::empty());
        assert(lex_le(a.drop_first(), b.drop_first()));
    } else {
        assert((c as int) != (d as int));
    }
}

proof fn lemma_decimal_digits(n: nat)
    ensures
        decimal(n).len() > 0,
        all_digits(decimal(n)),
        digits_value(decimal(n)) == n,
    decreases n,
{
    reveal_with_fuel(digits_value, 2);
    if n < 10 {
        let d = decimal(n);
        assert(digit_char(n) as int == n + 48);
        assert(d == seq![digit_char(n)]);
        assert(d.drop_last() =~= Seq::<char>::empty());
        assert(d.last() == digit_char(n));
        assert(digits_value(d.drop_last()) == 0);
        assert(digit_value(d.last()) == n);
        assert(is_digit(d[0]));
    } else {
        lemma_decimal_digits(n / 10);
        let d = decimal(n);
        assert(d.drop_last() =~= decimal(n / 10));
        assert(digit_char(n % 10) as int == n % 10 + 48);
        assert(d.last() == digit_char(n % 10));
        assert(digit_value(d.last()) == n % 10);
        assert(n == (n / 10) * 10 + n % 10);
        assert forall|i: int| 0 <= i < d.len() implies is_digit(#[trigger] d[i]) by {
            if i < d.len() - 1 {
                assert(d[i] == decimal(n / 10)[i]);
            }
        }
    }
}

/// Reading a number back from its decimal digits gives the number.
pub proof fn law_parse_decimal(n: u64)
    ensures
        parse_u64(decimal(n as nat)) == Some(n),
        decimal(n as nat).len() > 0,
        forall|i: int| 0 <= i < decimal(n as nat).len() ==> '0' <= #[trigger] decimal(n as nat)[i] <= '9',
{
    lemma_decimal_digits(n as nat);
    let d = decimal(n as nat);
    assert(d[0] != '+') by {
        assert(is_digit(d[0]));
    }
    assert(unsigned_digits(d) == d);
    assert forall|i: int| 0 <= i < d.len() implies '0' <= #[trigger] d[i] <= '9' by {
        assert(is_digit(d[i]));
    }
}

/// The value of a single digit character is the digit.
pub proof fn law_parse_single_digit(c: char)
    requires
        '0' <= c <= '9',
    ensures
        parse_u64(seq![c]) == Some((c as int - 48) as u64),
{
    reveal_with_fuel(digits_value, 2);
    let s = seq![c];
    assert(s[0] == c && s.last() == c);
    assert(unsigned_digits(s) == s);
    assert(s.drop_last() =~= Seq::<char>::empty());
    assert(digits_value(s.drop_last()) == 0);
    assert(digits_value(s) == digit_value(c));
    assert(all_digits(s));
}

proof fn lemma_field_after(x: Seq<char>, sep: char, rest: Seq<char>, i: nat)
    requires
        forall|k: int| 0 <= k < x.len() ==> x[k] != sep,
    ensures
        field(x + seq![sep] + rest, sep, 0) == Some(x),
        field(x + seq![sep] + rest, sep, i + 1) == field(rest, sep, i),
{
    let t = x + seq![sep] + rest;
    lemma_first_sep_unique(t, sep, x.len() as int);
    assert(t.take(x.len() as int) =~= x);
    assert(t.skip((x.len() + 1) as int) =~= rest);
}

proof fn lemma_field_whole(x: Seq<char>, sep: char)
    requires
        forall|k: int| 0 <= k < x.len() ==> x[k] != sep,
    ensures
        field(x, sep, 0) == Some(x),
        field(x, sep, 1) is None,
{
    lemma_first_sep_unique(x, sep, x.len() as int);
    assert(x.take(x.len() as int) =~= x);
}

/// The pieces of a text split at a separator: when `x` holds no `sep`, the
/// first piece of `x`, `sep`, `rest` is `x` and the following pieces are
/// those of `rest`; a text without `sep` is a single piece.
pub proof fn law_field_pieces(x: Seq<char>, sep: char, rest: Seq<char>, i: nat)
    requires
        forall|k: int| 0 <= k < x.len() ==> x[k] != sep,
    ensures
        field(x + seq![sep] + rest, sep, 0) == Some(x),
        field(x + seq![sep] + rest, sep, i + 1) == field(rest, sep, i),
        field(x, sep, 0) == Some(x),
        field(x, sep, 1) is None,
{
    lemma_field_after(x, sep, rest, i);
    lemma_field_whole(x, sep);
}

/// Trimming leaves a text without surrounding whitespace unchanged.
pub proof fn law_trim_keeps_inner_text(t: Seq<char>)
    requires
        t.len() > 0 ==> !is_ws(t[0]) && !is_ws(t.last()),
    ensures
        trim(t) == t,
{
    assert(trim_start(t) == t);
    assert(trim_end(t) == t);
}

/// A number below one hundred is written with exactly two digits, the
/// tens first: `7` becomes `07`.
pub proof fn law_pad2_two_digits(n: nat)
    requires
        n < 100,
    ensures
        pad2(n) == seq![digit_char(n / 10), digit_char(n % 10)],
{
    reveal_with_fuel(decimal, 2);
    if n < 10 {
        assert(pad2(n) =~= seq![digit_char(0), digit_char(n)]);
    } else {
        assert(decimal(n / 10) == seq![digit_char(n / 10)]);
        assert(pad2(n) =~= seq![digit_char(n / 10), digit_char(n % 10)]);
    }
}

proof fn lemma_pad2_reads_back(n: nat)
    requires
        n < 100,
    ensures
        pad2(n).len() == 2,
        parse_u64(pad2(n)) == Some(n as u64),
        forall|i: int| 0 <= i < pad2(n).len() ==> '0' <= #[trigger] pad2(n)[i] <= '9',
{
    reveal_with_fuel(digits_value, 3);
    law_pad2_two_digits(n);
    let p = pad2(n);
    let c0 = digit_char(n / 10);
    let c1 = digit_char(n % 10);
    assert(c0 as int == n / 10 + 48);
    assert(c1 as int == n % 10 + 48);
    assert(p[0] == c0 && p[1] == c1);
    assert(p[0] != '+');
    assert(unsigned_digits(p) == p);
    assert(all_digits(p));
    assert(p.drop_last() =~= seq![c0]);
    assert(p.drop_last().drop_last() =~= Seq::<char>::empty());
    assert(digits_value(seq![c0]) == digit_value(c0));
    assert(digits_value(p) == digit_value(c0) * 10 + digit_value(c1));
    assert forall|i: int| 0 <= i < p.len() implies '0' <= #[trigger] p[i] <= '9' by {
        if i == 0 {
        } else {
            assert(p[i] == c1);
        }
    }
}

/// The two halves `m:ss` of a clock text, read back.
pub open spec fn reads_as_clock(t: Seq<char>, secs: nat) -> bool {
    &&& field(t, ':', 0) matches Some(m) && parse_u64(m) == Some((secs / 60) as u64)
    &&& field(t, ':', 1) matches Some(s) && s.len() == 2 && parse_u64(s) == Some((secs % 60) as u64)
    &&& field(t, ':', 2) is None
}

proof fn lemma_minutes_seconds(secs: u64)
    ensures
        reads_as_clock(decimal((secs / 60) as nat) + seq![':'] + pad2((secs % 60) as nat), secs as nat),
        forall|i: int|
            0 <= i < (decimal((secs / 60) as nat) + seq![':'] + pad2((secs % 60) as nat)).len()
                ==> #[trigger] (decimal((secs / 60) as nat) + seq![':'] + pad2(
                (secs % 60) as nat))[i] != ' ',
{
    let a = decimal((secs / 60) as nat);
    let b = pad2((secs % 60) as nat);
    law_parse_decimal(secs / 60);
    lemma_pad2_reads_back((secs % 60) as nat);
    assert forall|k: int| 0 <= k < a.len() implies a[k] != ':' by {
        assert('0' <= a[k] <= '9');
    }
    assert forall|k: int| 0 <= k < b.len() implies b[k] != ':' by {
        assert('0' <= b[k] <= '9');
    }
    law_field_pieces(a, ':', b, 0);
    law_field_pieces(a, ':', b, 1);
    law_field_pieces(b, ':', Seq::empty(), 0);
    let t = a + seq![':'] + b;
    assert forall|i: int| 0 <= i < t.len() implies #[trigger] t[i] != ' ' by {
        if i < a.len() {
            assert(t[i] == a[i]);
            assert('0' <= a[i] <= '9');
        } else if i > a.len() {
            assert(t[i] == b[i - a.len() - 1]);
            assert('0' <= b[i - a.len() - 1] <= '9');
        }
    }
}

/// The clock text reads back as the position and the duration it shows:
/// two `m:ss` halves separated by ` / `, where the minutes are the whole
/// minutes and the two-digit seconds are the seconds left over.
pub proof fn law_clock_text_reads_back(pos: u64, dur: u64)
    ensures
        field(clock_text(pos as nat, dur as nat), ' ', 0) matches Some(l) && reads_as_clock(
            l,
            pos as nat,
        ),
        field(clock_text(pos as nat, dur as nat), ' ', 1) == Some(seq!['/']),
        field(clock_text(pos as nat, dur as nat), ' ', 2) matches Some(r) && reads_as_clock(
            r,
            dur as nat,
        ),
        field(clock_text(pos as nat, dur as nat), ' ', 3) is None,
{
    let l = decimal((pos / 60) as nat) + seq![':'] + pad2((pos % 60) as nat);
    let r = decimal((dur / 60) as nat) + seq![':'] + pad2((dur % 60) as nat);
    lemma_minutes_seconds(pos);
    lemma_minutes_seconds(dur);
    let c = clock_text(pos as nat, dur as nat);
    let mid = seq!['/'] + seq![' '] + r;
    assert(c =~= l + seq![' '] + mid);
    law_field_pieces(l, ' ', mid, 0);
    law_field_pieces(l, ' ', mid, 1);
    law_field_pieces(l, ' ', mid, 2);
    law_field_pieces(seq!['/'], ' ', r, 0);
    law_field_pieces(seq!['/'], ' ', r, 1);
    law_field_pieces(r, ' ', Seq::empty(), 0);
    assert(mid =~= seq!['/'] + seq![' '] + r);
}

/// A leading `+` is allowed before the digits of an unsigned number and
/// changes nothing: `+n` reads as `n`.
pub proof fn law_parse_plus_sign(n: u64)
    ensures
        parse_u64(seq!['+'] + decimal(n as nat)) == Some(n),
{
    law_parse_decimal(n);
    let d = decimal(n as nat);
    let s = seq!['+'] + d;
    assert(s[0] == '+');
    assert(s.drop_first() =~= d);
}

} // verus!
