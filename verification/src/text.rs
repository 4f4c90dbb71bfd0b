//! Character-level text utilities: fixed-point number parsing and the
//! searching, trimming and splitting primitives the chart reader needs.
//! Every executable function is proved equal to a direct specification
//! over the text's view.
use vstd::prelude::*;
use vstd::string::*;
use vstd::arithmetic::div_mod::lemma_fundamental_div_mod;
use crate::PARSE_MAX;

verus! {

pub open spec fn char_is_digit(c: char) -> bool {
    48 <= c as int && c as int <= 57
}

pub open spec fn digit_val(c: char) -> int {
    c as int - 48
}

pub open spec fn all_digits(s: Seq<char>) -> bool {
    forall|i: int| 0 <= i < s.len() ==> char_is_digit(#[trigger] s[i])
}

/// Value of a digit string read left to right.
pub open spec fn digits_val(s: Seq<char>) -> int
    decreases s.len(),
{
    if s.len() == 0 {
        0
    } else {
        digits_val(s.drop_last()) * 10 + digit_val(s.last())
    }
}

/// Value of fraction digits, the first worth `w`, each next a tenth of
/// that; digits whose weight has reached zero are truncated away.
pub open spec fn frac_val(s: Seq<char>, w: int) -> int
    decreases s.len(),
{
    if s.len() == 0 || w <= 0 {
        0
    } else {
        digit_val(s[0]) * w + frac_val(s.drop_first(), w / 10)
    }
}

/// Index of the first occurrence of `c` in `s`; `s.len()` when absent.
pub open spec fn first_at(s: Seq<char>, c: char) -> int
    decreases s.len(),
{
    if s.len() == 0 {
        0
    } else if s[0] == c {
        0
    } else {
        1 + first_at(s.drop_first(), c)
    }
}

pub proof fn lemma_first_at(s: Seq<char>, c: char, k: int)
    requires
        0 <= k <= s.len(),
        forall|j: int| 0 <= j < k ==> s[j] != c,
        k < s.len() ==> s[k] == c,
    ensures
        first_at(s, c) == k,
    decreases s.len(),
{
    if s.len() == 0 {
    } else if k == 0 {
    } else {
        assert(forall|j: int| 0 <= j < k - 1 ==> s.drop_first()[j] == s[j + 1]);
        lemma_first_at(s.drop_first(), c, k - 1);
    }
}

pub proof fn lemma_first_at_bounds(s: Seq<char>, c: char)
    ensures
        0 <= first_at(s, c) <= s.len(),
        first_at(s, c) < s.len() ==> s[first_at(s, c)] == c,
        forall|j: int| 0 <= j < first_at(s, c) ==> s[j] != c,
    decreases s.len(),
{
    if s.len() == 0 {
    } else if s[0] == c {
    } else {
        lemma_first_at_bounds(s.drop_first(), c);
        assert(forall|j: int| 1 <= j < first_at(s, c) ==> s[j] == s.drop_first()[j - 1]);
    }
}

pub proof fn lemma_digits_val_nonneg(s: Seq<char>)
    requires
        all_digits(s),
    ensures
        digits_val(s) >= 0,
    decreases s.len(),
{
    if s.len() > 0 {
        assert(all_digits(s.drop_last()));
        lemma_digits_val_nonneg(s.drop_last());
    }
}

pub proof fn lemma_digits_val_prefix(s: Seq<char>, k: int)
    requires
        all_digits(s),
        0 <= k <= s.len(),
    ensures
        digits_val(s.take(k)) <= digits_val(s),
    decreases s.len(),
{
    if k == s.len() {
        assert(s.take(k) =~= s);
    } else {
        assert(all_digits(s.drop_last()));
        lemma_digits_val_nonneg(s.drop_last());
        lemma_digits_val_prefix(s.drop_last(), k);
        assert(s.drop_last().take(k) =~= s.take(k));
    }
}

pub proof fn lemma_frac_val_bounds(s: Seq<char>, w: int)
    requires
        all_digits(s),
        w >= 0,
    ensures
        0 <= frac_val(s, w),
        w >= 1 ==> frac_val(s, w) <= 10 * w - 1,
        w == 0 ==> frac_val(s, w) == 0,
    decreases s.len(),
{
    if s.len() == 0 || w <= 0 {
    } else {
        assert(all_digits(s.drop_first()));
        lemma_fundamental_div_mod(w, 10);
        lemma_frac_val_bounds(s.drop_first(), w / 10);
        let d0 = digit_val(s[0]);
        assert(0 <= d0 <= 9);
        assert(0 <= d0 * w && d0 * w <= 9 * w) by (nonlinear_arith)
            requires
                0 <= d0 <= 9,
                w >= 1,
        ;
    }
}

/// Shape of an unsigned fixed-point literal: digits, at most one dot,
/// and at least one digit somewhere.
pub open spec fn fixed_shape_ok(s: Seq<char>) -> bool {
    let d = first_at(s, '.');
    &&& s.len() > 0
    &&& all_digits(s.take(d))
    &&& (d < s.len() ==> all_digits(s.skip(d + 1)))
    &&& (d > 0 || d + 1 < s.len())
}

/// Magnitude of an unsigned fixed-point literal, in micro-units.
pub open spec fn fixed_mag(s: Seq<char>) -> int {
    let d = first_at(s, '.');
    digits_val(s.take(d)) * 1_000_000 + if d < s.len() {
        frac_val(s.skip(d + 1), 100_000)
    } else {
        0
    }
}

/// A decimal literal with optional sign, truncated toward zero to
/// micro-units; `None` on any other shape or past `PARSE_MAX`.
pub open spec fn parse_fixed_spec(s: Seq<char>) -> Option<int> {
    let signed = s.len() > 0 && (s[0] == '-' || s[0] == '+');
    let body = if signed {
        s.drop_first()
    } else {
        s
    };
    if fixed_shape_ok(body) && fixed_mag(body) <= PARSE_MAX {
        if s.len() > 0 && s[0] == '-' {
            Some(-fixed_mag(body))
        } else {
            Some(fixed_mag(body))
        }
    } else {
        None
    }
}

/// Reads a decimal literal as a fixed-point count of micro-units.
#[verifier::loop_isolation(false)]
#[verifier::rlimit(60)]
pub fn parse_fixed(s: &str) -> (r: Option<i64>)
    ensures
        match r {
            Some(v) => parse_fixed_spec(s@) == Some(v as int),
            None => parse_fixed_spec(s@) is None,
        },
{
    let n = s.unicode_len();
    let mut i: usize = 0;
    let mut neg = false;
    if n > 0 {
        let c0 = s.get_char(0);
        if c0 == '-' {
            neg = true;
            i = 1;
        } else if c0 == '+' {
            i = 1;
        }
    }
    let ghost body = s@.skip(i as int);
    proof {
        let spec_body = if s@.len() > 0 && (s@[0] == '-' || s@[0] == '+') {
            s@.drop_first()
        } else {
            s@
        };
        assert(body =~= spec_body);
        assert(neg <==> s@.len() > 0 && s@[0] == '-');
    }
    // locate the first dot of the body
    let mut d: usize = i;
    let mut found = false;
    while d < n && !found
        invariant
            i <= d <= n,
            n == s@.len(),
            forall|j: int| i <= j < d ==> s@[j] != '.',
            found ==> d < n && s@[d as int] == '.',
        decreases n - d + if found { 0int } else { 1int },
    {
        if s.get_char(d) == '.' {
            found = true;
        } else {
            d += 1;
        }
    }
    proof {
        assert(forall|j: int| 0 <= j < d - i ==> body[j] == s@[j + i] && body[j] != '.');
        if found {
            assert(body[d - i] == '.');
        }
        lemma_first_at(body, '.', d - i);
        assert(first_at(body, '.') == d - i);
    }
    // at least one digit must be present
    if i == d && (d == n || d + 1 == n) {
        return None;
    }
    // integer part
    let ghost intpart = body.take(d - i);
    proof {
        assert(intpart =~= s@.subrange(i as int, d as int));
    }
    let mut acc: i64 = 0;
    let mut j: usize = i;
    while j < d
        invariant
            i <= j <= d <= n,
            n == s@.len(),
            intpart =~= s@.subrange(i as int, d as int),
            all_digits(s@.subrange(i as int, j as int)),
            acc == digits_val(s@.subrange(i as int, j as int)),
            0 <= acc <= PARSE_MAX,
        decreases d - j,
    {
        let c = s.get_char(j);
        let u = c as u32;
        if !(48 <= u && u <= 57) {
            proof {
                assert(!char_is_digit(s@[j as int]));
                assert(intpart[j - i] == s@[j as int]);
                assert(!all_digits(intpart));
            }
            return None;
        }
        proof {
            assert(s@.subrange(i as int, j + 1).drop_last() =~= s@.subrange(i as int, j as int));
            assert(s@.subrange(i as int, j + 1).last() == s@[j as int]);
            assert(char_is_digit(s@[j as int]));
            assert(forall|l: int|
                0 <= l < j + 1 - i ==> #[trigger] s@.subrange(i as int, j + 1)[l] == s@[l + i]);
            assert(all_digits(s@.subrange(i as int, j + 1)));
        }
        acc = acc * 10 + ((u - 48) as i64);
        j += 1;
        if acc > PARSE_MAX {
            proof {
                let full = digits_val(intpart);
                if fixed_shape_ok(body) {
                    assert(all_digits(intpart));
                    lemma_digits_val_prefix(intpart, j - i);
                    assert(intpart.take(j - i) =~= s@.subrange(i as int, j as int));
                    lemma_digits_val_nonneg(intpart);
                    if d < n {
                        lemma_frac_val_bounds(body.skip(d - i + 1), 100_000);
                    }
                    assert(fixed_mag(body) > PARSE_MAX);
                }
            }
            return None;
        }
    }
    proof {
        assert(s@.subrange(i as int, d as int) =~= intpart);
        assert(acc == digits_val(intpart));
        assert(all_digits(intpart));
    }
    // fraction part
    let ghost fracpart = if d < n {
        body.skip(d - i + 1)
    } else {
        Seq::<char>::empty()
    };
    proof {
        if d < n {
            assert(fracpart =~= s@.subrange(d + 1, n as int));
        }
    }
    let mut f: i64 = 0;
    if d < n {
        let mut w: i64 = 100_000;
        let mut k: usize = d + 1;
        while k < n
            invariant
                d + 1 <= k <= n,
                n == s@.len(),
                fracpart =~= s@.subrange(d + 1, n as int),
                all_digits(s@.subrange(d + 1, k as int)),
                0 <= w <= 100_000,
                0 <= f,
                w >= 1 ==> f + 10 * w <= 1_000_000,
                w == 0 ==> f <= 999_999,
                f + frac_val(s@.subrange(k as int, n as int), w as int) == frac_val(
                    fracpart,
                    100_000,
                ),
            decreases n - k,
        {
            let c = s.get_char(k);
            let u = c as u32;
            if !(48 <= u && u <= 57) {
                proof {
                    assert(!char_is_digit(s@[k as int]));
                    assert(fracpart[k - (d + 1)] == s@[k as int]);
                    assert(!all_digits(fracpart));
                }
                return None;
            }
            proof {
                assert(s@.subrange(d + 1, k + 1).drop_last() =~= s@.subrange(d + 1, k as int));
                assert(s@.subrange(d + 1, k + 1).last() == s@[k as int]);
                assert(forall|l: int|
                    0 <= l < k + 1 - (d + 1) ==> #[trigger] s@.subrange(d + 1, k + 1)[l] == s@[l + d + 1]);
                assert(all_digits(s@.subrange(d + 1, k + 1)));
                assert(s@.subrange(k as int, n as int).drop_first() =~= s@.subrange(
                    k + 1,
                    n as int,
                ));
                assert(s@.subrange(k as int, n as int)[0] == s@[k as int]);
                lemma_fundamental_div_mod(w as int, 10);
                let d0 = digit_val(s@[k as int]);
                assert(0 <= d0 * (w as int) && d0 * (w as int) <= 9 * (w as int)) by (
                nonlinear_arith)
                    requires
                        0 <= d0 <= 9,
                        0 <= w,
                ;
            }
            if w > 0 {
                f = f + ((u - 48) as i64) * w;
            }
            w = w / 10;
            k += 1;
        }
        proof {
            assert(s@.subrange(n as int, n as int) =~= Seq::<char>::empty());
            assert(f == frac_val(fracpart, 100_000));
        }
    }
    // combine, rejecting magnitudes past the parser's cap
    proof {
        lemma_digits_val_nonneg(intpart);
        if d < n {
            lemma_frac_val_bounds(fracpart, 100_000);
        }
        assert(fixed_shape_ok(body));
        assert(fixed_mag(body) == acc * 1_000_000 + f);
    }
    if acc > 1_000_000_000 || (acc == 1_000_000_000 && f > 0) {
        return None;
    }
    let v = acc * 1_000_000 + f;
    if neg {
        Some(-v)
    } else {
        Some(v)
    }
}

/// `t` occurs in `s` at position `i`.
pub open spec fn occurs_at(s: Seq<char>, t: Seq<char>, i: int) -> bool {
    0 <= i && i + t.len() <= s.len() && s.subrange(i, i + t.len()) == t
}

/// Position of the first occurrence of `t` in `s`.
pub open spec fn find_sub(s: Seq<char>, t: Seq<char>) -> Option<int>
    decreases s.len(),
{
    if occurs_at(s, t, 0) {
        Some(0)
    } else if s.len() == 0 {
        None
    } else {
        match find_sub(s.drop_first(), t) {
            Some(i) => Some(i + 1),
            None => None,
        }
    }
}

pub proof fn lemma_find_sub(s: Seq<char>, t: Seq<char>)
    ensures
        match find_sub(s, t) {
            Some(i) => occurs_at(s, t, i) && forall|j: int| 0 <= j < i ==> !occurs_at(s, t, j),
            None => forall|j: int| !occurs_at(s, t, j),
        },
    decreases s.len(),
{
    if occurs_at(s, t, 0) {
    } else if s.len() == 0 {
        assert(forall|j: int| j != 0 ==> !occurs_at(s, t, j));
    } else {
        lemma_find_sub(s.drop_first(), t);
        assert forall|j: int| 1 <= j implies (occurs_at(s, t, j) <==> occurs_at(
            s.drop_first(),
            t,
            j - 1,
        )) by {
            if j + t.len() <= s.len() {
                assert(s.drop_first().subrange(j - 1, j - 1 + t.len()) =~= s.subrange(
                    j,
                    j + t.len(),
                ));
            }
        }
        match find_sub(s.drop_first(), t) {
            Option::Some(i) => {
                assert(occurs_at(s, t, i + 1));
                assert forall|j: int| 0 <= j < i + 1 implies !occurs_at(s, t, j) by {
                    if j >= 1 {
                        assert(!occurs_at(s.drop_first(), t, j - 1));
                    }
                }
            },
            Option::None => {
                assert forall|j: int| !occurs_at(s, t, j) by {
                    if j >= 1 {
                        assert(!occurs_at(s.drop_first(), t, j - 1));
                    }
                }
            },
        }
    }
}

/// Index of the first occurrence of `c`, `s.len()` when there is none.
#[verifier::loop_isolation(false)]
pub fn find_char(s: &str, c: char) -> (r: usize)
    ensures
        r == first_at(s@, c),
        r <= s@.len(),
{
    let n = s.unicode_len();
    let mut i: usize = 0;
    let mut found = false;
    while i < n && !found
        invariant
            0 <= i <= n,
            forall|j: int| 0 <= j < i ==> s@[j] != c,
            found ==> i < n && s@[i as int] == c,
        decreases n - i + if found { 0int } else { 1int },
    {
        if s.get_char(i) == c {
            found = true;
        } else {
            i += 1;
        }
    }
    proof {
        lemma_first_at(s@, c, i as int);
    }
    i
}

/// First position where `t` occurs in `s`.
#[verifier::loop_isolation(false)]
pub fn find_first(s: &str, t: &str) -> (r: Option<usize>)
    ensures
        match r {
            Some(i) => find_sub(s@, t@) == Some(i as int) && i + t@.len() <= s@.len(),
            None => find_sub(s@, t@) is None,
        },
{
    let n = s.unicode_len();
    let m = t.unicode_len();
    if m > n {
        proof {
            lemma_find_sub(s@, t@);
        }
        return None;
    }
    let mut i: usize = 0;
    while i <= n - m
        invariant
            0 <= i <= n - m + 1,
            m <= n,
            n == s@.len(),
            m == t@.len(),
            forall|j: int| 0 <= j < i ==> !occurs_at(s@, t@, j),
        decreases n - m - i + 1,
    {
        let mut k: usize = 0;
        let mut ok = true;
        while k < m && ok
            invariant
                0 <= k <= m,
                i + m <= n,
                ok ==> forall|l: int| 0 <= l < k ==> s@[i + l] == t@[l],
                !ok ==> !occurs_at(s@, t@, i as int) && m >= 1,
            decreases m - k + if ok { 1int } else { 0int },
        {
            if s.get_char(i + k) != t.get_char(k) {
                proof {
                    if occurs_at(s@, t@, i as int) {
                        assert(s@.subrange(i as int, i + t@.len())[k as int] == s@[i + k]);
                    }
                }
                ok = false;
            } else {
                k += 1;
            }
        }
        if ok {
            proof {
                assert(s@.subrange(i as int, i + t@.len()) =~= t@);
                assert(occurs_at(s@, t@, i as int));
                lemma_find_sub(s@, t@);
                if find_sub(s@, t@) is None {
                    assert(false);
                }
            }
            return Some(i);
        }
        i += 1;
    }
    proof {
        assert(forall|j: int| j >= i ==> !occurs_at(s@, t@, j));
        lemma_find_sub(s@, t@);
        if find_sub(s@, t@) is Some {
            assert(false);
        }
    }
    None
}

pub open spec fn char_is_space(c: char) -> bool {
    c == ' ' || c == '\t' || c == '\r' || c == '\n'
}

pub open spec fn trim_front(s: Seq<char>) -> Seq<char>
    decreases s.len(),
{
    if s.len() > 0 && char_is_space(s[0]) {
        trim_front(s.drop_first())
    } else {
        s
    }
}

pub open spec fn trim_back(s: Seq<char>) -> Seq<char>
    decreases s.len(),
{
    if s.len() > 0 && char_is_space(s.last()) {
        trim_back(s.drop_last())
    } else {
        s
    }
}

/// `s` with leading and trailing whitespace removed.
pub open spec fn trim_spec(s: Seq<char>) -> Seq<char> {
    trim_back(trim_front(s))
}

pub proof fn lemma_trim_front(s: Seq<char>, a: int)
    requires
        0 <= a <= s.len(),
        forall|j: int| 0 <= j < a ==> char_is_space(s[j]),
        a < s.len() ==> !char_is_space(s[a]),
    ensures
        trim_front(s) == s.skip(a),
    decreases s.len(),
{
    if a == 0 {
        if s.len() > 0 && char_is_space(s[0]) {
            assert(false);
        }
        assert(s.skip(0) =~= s);
    } else {
        assert(forall|j: int| 0 <= j < a - 1 ==> s.drop_first()[j] == s[j + 1]);
        lemma_trim_front(s.drop_first(), a - 1);
        assert(s.drop_first().skip(a - 1) =~= s.skip(a));
    }
}

pub proof fn lemma_trim_back(s: Seq<char>, b: int)
    requires
        0 <= b <= s.len(),
        forall|j: int| b <= j < s.len() ==> char_is_space(s[j]),
        b > 0 ==> !char_is_space(s[b - 1]),
    ensures
        trim_back(s) == s.take(b),
    decreases s.len(),
{
    if b == s.len() {
        if s.len() > 0 && char_is_space(s.last()) {
            assert(false);
        }
        assert(s.take(b) =~= s);
    } else {
        lemma_trim_back(s.drop_last(), b);
        assert(s.drop_last().take(b) =~= s.take(b));
    }
}

/// `s` without leading or trailing spaces, tabs or line breaks.
#[verifier::loop_isolation(false)]
pub fn trim<'a>(s: &'a str) -> (r: &'a str)
    ensures
        r@ == trim_spec(s@),
{
    let n = s.unicode_len();
    let mut a: usize = 0;
    let mut stop = false;
    while a < n && !stop
        invariant
            0 <= a <= n,
            forall|j: int| 0 <= j < a ==> char_is_space(s@[j]),
            stop ==> a < n && !char_is_space(s@[a as int]),
        decreases n - a + if stop { 0int } else { 1int },
    {
        let c = s.get_char(a);
        if c == ' ' || c == '\t' || c == '\r' || c == '\n' {
            a += 1;
        } else {
            stop = true;
        }
    }
    proof {
        lemma_trim_front(s@, a as int);
    }
    let mut b: usize = n;
    let mut stop2 = false;
    while b > a && !stop2
        invariant
            a <= b <= n,
            forall|j: int| b <= j < n ==> char_is_space(s@[j]),
            stop2 ==> b > a && !char_is_space(s@[b - 1]),
        decreases b + if stop2 { 0int } else { 1int },
    {
        let c = s.get_char(b - 1);
        if c == ' ' || c == '\t' || c == '\r' || c == '\n' {
            b -= 1;
        } else {
            stop2 = true;
        }
    }
    let r = s.substring_char(a, b);
    proof {
        let t = s@.skip(a as int);
        assert(forall|j: int| 0 <= j < t.len() ==> t[j] == s@[j + a]);
        lemma_trim_back(t, b - a);
        assert(t.take(b - a) =~= s@.subrange(a as int, b as int));
    }
    r
}

/// The pieces of `s` between occurrences of `c`, in order.
pub open spec fn split_at(s: Seq<char>, c: char) -> Seq<Seq<char>>
    decreases s.len(),
{
    let i = first_at(s, c);
    if 0 <= i < s.len() {
        seq![s.subrange(0, i)] + split_at(s.subrange(i + 1, s.len() as int), c)
    } else {
        seq![s]
    }
}

/// Splits `s` on every occurrence of `c`.
pub fn split_char(s: &str, c: char) -> (r: Vec<String>)
    ensures
        r.deep_view() == split_at(s@, c),
        r.len() >= 1,
    decreases s@.len(),
{
    let n = s.unicode_len();
    let i = find_char(s, c);
    proof {
        lemma_first_at_bounds(s@, c);
    }
    if i >= n {
        let mut v: Vec<String> = Vec::new();
        v.push(s.to_owned());
        proof {
            assert(v.deep_view() =~= seq![s@]);
        }
        v
    } else {
        let head = s.substring_char(0, i).to_owned();
        let tail = s.substring_char(i + 1, n);
        let rest = split_char(tail, c);
        let mut v: Vec<String> = Vec::new();
        v.push(head);
        let mut rest = rest;
        v.append(&mut rest);
        proof {
            assert(v.deep_view() =~= seq![s@.subrange(0, i as int)] + split_at(
                s@.subrange(i + 1, s@.len() as int),
                c,
            ));
        }
        v
    }
}

/// `s` with every occurrence of `c` removed.
pub open spec fn strip_char_spec(s: Seq<char>, c: char) -> Seq<char>
    decreases s.len(),
{
    let i = first_at(s, c);
    if 0 <= i < s.len() {
        s.subrange(0, i) + strip_char_spec(s.subrange(i + 1, s.len() as int), c)
    } else {
        s
    }
}

/// Removes every occurrence of `c` from `s`.
pub fn strip_char(s: &str, c: char) -> (r: String)
    ensures
        r@ == strip_char_spec(s@, c),
    decreases s@.len(),
{
    let n = s.unicode_len();
    let i = find_char(s, c);
    proof {
        lemma_first_at_bounds(s@, c);
    }
    if i >= n {
        s.to_owned()
    } else {
        let head = s.substring_char(0, i);
        let tail = s.substring_char(i + 1, n);
        let rest = strip_char(tail, c);
        let out = head.to_owned().concat(rest.as_str());
        out
    }
}

/// `s` with every trailing `c` removed.
pub open spec fn strip_trail(s: Seq<char>, c: char) -> Seq<char>
    decreases s.len(),
{
    if s.len() > 0 && s.last() == c {
        strip_trail(s.drop_last(), c)
    } else {
        s
    }
}

pub proof fn lemma_strip_trail(s: Seq<char>, c: char, b: int)
    requires
        0 <= b <= s.len(),
        forall|j: int| b <= j < s.len() ==> s[j] == c,
        b > 0 ==> s[b - 1] != c,
    ensures
        strip_trail(s, c) == s.take(b),
    decreases s.len(),
{
    if b == s.len() {
        assert(s.take(b) =~= s);
    } else {
        lemma_strip_trail(s.drop_last(), c, b);
        assert(s.drop_last().take(b) =~= s.take(b));
    }
}

/// Removes every trailing `c` of `s`.
#[verifier::loop_isolation(false)]
pub fn strip_trailing(s: &str, c: char) -> (r: String)
    ensures
        r@ == strip_trail(s@, c),
{
    let n = s.unicode_len();
    let mut b: usize = n;
    let mut stop = false;
    while b > 0 && !stop
        invariant
            0 <= b <= n,
            forall|j: int| b <= j < n ==> s@[j] == c,
            stop ==> b > 0 && s@[b - 1] != c,
        decreases b + if stop { 0int } else { 1int },
    {
        if s.get_char(b - 1) == c {
            b -= 1;
        } else {
            stop = true;
        }
    }
    proof {
        lemma_strip_trail(s@, c, b as int);
        assert(s@.take(b as int) =~= s@.subrange(0, b as int));
    }
    s.substring_char(0, b).to_owned()
}

/// `s` begins with `t`.
pub open spec fn starts_with(s: Seq<char>, t: Seq<char>) -> bool {
    t.len() <= s.len() && s.subrange(0, t.len() as int) == t
}

#[verifier::loop_isolation(false)]
pub fn str_starts_with(s: &str, t: &str) -> (r: bool)
    ensures
        r == starts_with(s@, t@),
{
    let n = s.unicode_len();
    let m = t.unicode_len();
    if m > n {
        return false;
    }
    let mut k: usize = 0;
    while k < m
        invariant
            0 <= k <= m <= n,
            forall|l: int| 0 <= l < k ==> s@[l] == t@[l],
        decreases m - k,
    {
        if s.get_char(k) != t.get_char(k) {
            proof {
                if starts_with(s@, t@) {
                    assert(s@.subrange(0, t@.len() as int)[k as int] == s@[k as int]);
                }
            }
            return false;
        }
        k += 1;
    }
    proof {
        assert(s@.subrange(0, t@.len() as int) =~= t@);
    }
    true
}

/// The value of a `#NAME:value;` tag: the text between the first
/// occurrence of the marker and the next `;`, trimmed.
pub open spec fn tag_value(s: Seq<char>, tag: Seq<char>) -> Option<Seq<char>> {
    match find_sub(s, tag) {
        Option::None => None,
        Option::Some(i) => {
            let rest = s.subrange(i + tag.len(), s.len() as int);
            let j = first_at(rest, ';');
            if j < rest.len() {
                Some(trim_spec(rest.subrange(0, j)))
            } else {
                None
            }
        },
    }
}

/// Extracts the trimmed value of a scalar tag such as `#TITLE:`.
pub fn parse_tag_value(contents: &str, tag: &str) -> (r: Option<String>)
    ensures
        match r {
            Some(v) => tag_value(contents@, tag@) == Some(v@),
            None => tag_value(contents@, tag@) is None,
        },
{
    let n = contents.unicode_len();
    match find_first(contents, tag) {
        None => None,
        Some(i) => {
            let rest = contents.substring_char(i + tag.unicode_len(), n);
            let j = find_char(rest, ';');
            proof {
                lemma_first_at_bounds(rest@, ';');
            }
            if j >= rest.unicode_len() {
                None
            } else {
                let piece = rest.substring_char(0, j);
                Some(trim(piece).to_owned())
            }
        },
    }
}

} // verus!
