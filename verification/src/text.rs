//! Comparing strings, and the small amount of text handling the server
//! does: trimming white space, splitting at commas and reading decimal
//! numbers.
use vstd::prelude::*;

verus! {

/// `a` comes before `b` or equals it, comparing character by character
/// (by code point) and putting a prefix first.
pub open spec fn seq_le(a: Seq<char>, b: Seq<char>) -> bool
    decreases a.len(),
{
    if a.len() == 0 {
        true
    } else if b.len() == 0 {
        false
    } else if a[0] != b[0] {
        (a[0] as int) < (b[0] as int)
    } else {
        seq_le(a.drop_first(), b.drop_first())
    }
}

/// Calls `<str as PartialEq>::eq`, which is true exactly when the two
/// strings hold the same characters.
#[verifier::external_body]
pub fn str_eq(a: &str, b: &str) -> (res: bool)
    ensures
        res == (a@ == b@),
{
    a == b
}

/// Calls `<str as PartialOrd>::le`. std orders strings lexicographically by
/// their bytes, which orders code points by their position in the code
/// charts: the contract states that order over the characters.
#[verifier::external_body]
pub fn str_le(a: &str, b: &str) -> (res: bool)
    ensures
        res == seq_le(a@, b@),
{
    a <= b
}

/// Any two strings are ordered one way or the other.
pub proof fn lemma_seq_le_total(a: Seq<char>, b: Seq<char>)
    ensures
        seq_le(a, b) || seq_le(b, a),
    decreases a.len(),
{
    if a.len() > 0 && b.len() > 0 && a[0] == b[0] {
        lemma_seq_le_total(a.drop_first(), b.drop_first());
    }
}

/// Two strings each ordered before the other are equal.
pub proof fn lemma_seq_le_antisymmetric(a: Seq<char>, b: Seq<char>)
    requires
        seq_le(a, b),
        seq_le(b, a),
    ensures
        a == b,
    decreases a.len(),
{
    if a.len() > 0 && b.len() > 0 {
        lemma_seq_le_antisymmetric(a.drop_first(), b.drop_first());
        assert(a =~= seq![a[0]] + a.drop_first());
        assert(b =~= seq![b[0]] + b.drop_first());
    } else {
        assert(a.len() == 0 && b.len() == 0);
        assert(a =~= b);
    }
}

/// A character with Unicode's White_Space property, the set that
/// `char::is_whitespace` and `str::trim` go by.
pub open spec fn is_ws(c: char) -> bool {
    ('\u{9}' <= c && c <= '\u{d}') || c == ' ' || c == '\u{85}' || c == '\u{a0}' || c
        == '\u{1680}' || ('\u{2000}' <= c && c <= '\u{200a}') || c == '\u{2028}' || c == '\u{2029}'
        || c == '\u{202f}' || c == '\u{205f}' || c == '\u{3000}'
}

/// Whether `c` is white space.
pub fn is_whitespace(c: char) -> (res: bool)
    ensures
        res == is_ws(c),
{
    ('\u{9}' <= c && c <= '\u{d}') || c == ' ' || c == '\u{85}' || c == '\u{a0}' || c
        == '\u{1680}' || ('\u{2000}' <= c && c <= '\u{200a}') || c == '\u{2028}' || c == '\u{2029}'
        || c == '\u{202f}' || c == '\u{205f}' || c == '\u{3000}'
}

/// `i` is where the leading white space of `s` ends.
pub open spec fn lead_ok(s: Seq<char>, i: int) -> bool {
    &&& 0 <= i <= s.len()
    &&& forall|k: int| 0 <= k < i ==> is_ws(#[trigger] s[k])
    &&& i == s.len() || !is_ws(s[i])
}

/// `j` is where the trailing white space of `s` starts, when the text
/// starts at `i`.
pub open spec fn trail_ok(s: Seq<char>, i: int, j: int) -> bool {
    &&& i <= j <= s.len()
    &&& forall|k: int| j <= k < s.len() ==> is_ws(#[trigger] s[k])
    &&& j == i || !is_ws(s[j - 1])
}

pub open spec fn trim_start(s: Seq<char>) -> int {
    choose|i: int| lead_ok(s, i)
}

pub open spec fn trim_end(s: Seq<char>) -> int {
    choose|j: int| trail_ok(s, trim_start(s), j)
}

/// `s` without its leading and trailing white space.
pub open spec fn trimmed(s: Seq<char>) -> Seq<char> {
    s.subrange(trim_start(s), trim_end(s))
}

/// The end of the leading white space is the one `lead_ok` picks.
proof fn lemma_trim_start(s: Seq<char>, i: int)
    requires
        lead_ok(s, i),
    ensures
        trim_start(s) == i,
{
    let k = trim_start(s);
    assert(lead_ok(s, k));
    if k < i {
        assert(is_ws(s[k]));
    }
    if i < k {
        assert(is_ws(s[i]));
    }
}

/// The start of the trailing white space is the one `trail_ok` picks.
proof fn lemma_trim_end(s: Seq<char>, i: int, j: int)
    requires
        lead_ok(s, i),
        trail_ok(s, i, j),
    ensures
        trim_start(s) == i,
        trim_end(s) == j,
{
    lemma_trim_start(s, i);
    let k = trim_end(s);
    assert(trail_ok(s, i, k));
    if k < j {
        assert(is_ws(s[j - 1]));
    }
    if j < k {
        assert(is_ws(s[k - 1]));
    }
}

/// `s` without leading and trailing white space, as `str::trim` gives it,
/// as a new string.
pub fn trim(s: &str) -> (res: String)
    ensures
        res@ == trimmed(s@),
{
    let n = s.unicode_len();
    let mut i: usize = 0;
    loop
        invariant
            n == s@.len(),
            i <= n,
            forall|k: int| 0 <= k < i ==> is_ws(#[trigger] s@[k]),
        ensures
            i <= n,
            forall|k: int| 0 <= k < i ==> is_ws(#[trigger] s@[k]),
            i == n || !is_ws(s@[i as int]),
        decreases n - i,
    {
        if i == n {
            break;
        }
        if !is_whitespace(s.get_char(i)) {
            break;
        }
        i = i + 1;
    }
    assert(lead_ok(s@, i as int));
    let mut j: usize = n;
    loop
        invariant
            n == s@.len(),
            lead_ok(s@, i as int),
            i <= j <= n,
            forall|k: int| j <= k < n ==> is_ws(#[trigger] s@[k]),
        ensures
            i <= j <= n,
            forall|k: int| j <= k < n ==> is_ws(#[trigger] s@[k]),
            j == i || !is_ws(s@[j - 1]),
        decreases j - i,
    {
        if j == i {
            break;
        }
        if !is_whitespace(s.get_char(j - 1)) {
            break;
        }
        j = j - 1;
    }
    proof {
        lemma_trim_end(s@, i as int, j as int);
    }
    String::from_str(s.substring_char(i, j))
}

/// The pieces of `s` between commas, in order (one piece for no comma).
pub open spec fn split_commas(s: Seq<char>) -> Seq<Seq<char>>
    decreases s.len(),
{
    if s.len() == 0 {
        seq![Seq::empty()]
    } else {
        let p = split_commas(s.drop_last());
        if s.last() == ',' {
            p.push(Seq::empty())
        } else {
            p.update(p.len() - 1, p.last().push(s.last()))
        }
    }
}

/// The characters of each string of a vector.
pub open spec fn strings_view(v: Seq<String>) -> Seq<Seq<char>> {
    v.map_values(|s: String| s@)
}

/// Splits `s` at each comma.
pub fn split_commas_exec(s: &str) -> (res: Vec<String>)
    ensures
        strings_view(res@) == split_commas(s@),
{
    let n = s.unicode_len();
    let mut pieces: Vec<String> = Vec::new();
    let mut start: usize = 0;
    let mut i: usize = 0;
    assert(s@.take(0) =~= Seq::<char>::empty());
    assert(strings_view(pieces@).push(s@.subrange(0, 0)) =~= split_commas(s@.take(0)));
    while i < n
        invariant
            n == s@.len(),
            start <= i <= n,
            strings_view(pieces@).push(s@.subrange(start as int, i as int)) == split_commas(
                s@.take(i as int),
            ),
        decreases n - i,
    {
        let c = s.get_char(i);
        proof {
            assert(s@.take(i as int + 1).drop_last() =~= s@.take(i as int));
            assert(s@.take(i as int + 1).last() == c);
        }
        let ghost before = strings_view(pieces@);
        let ghost cur = s@.subrange(start as int, i as int);
        if c == ',' {
            let piece = String::from_str(s.substring_char(start, i));
            pieces.push(piece);
            start = i + 1;
            assert(strings_view(pieces@) =~= before.push(cur));
            assert(s@.subrange(start as int, i as int + 1) =~= Seq::<char>::empty());
            assert(strings_view(pieces@).push(s@.subrange(start as int, i as int + 1)) =~= split_commas(
                s@.take(i as int),
            ).push(Seq::empty()));
        } else {
            assert(s@.subrange(start as int, i as int + 1) =~= s@.subrange(start as int, i as int).push(c));
            assert(strings_view(pieces@).push(s@.subrange(start as int, i as int + 1)) =~= split_commas(
                s@.take(i as int),
            ).update(
                split_commas(s@.take(i as int)).len() - 1,
                split_commas(s@.take(i as int)).last().push(c),
            ));
        }
        i = i + 1;
    }
    let last = String::from_str(s.substring_char(start, n));
    pieces.push(last);
    assert(s@.take(n as int) =~= s@);
    assert(strings_view(pieces@) =~= split_commas(s@));
    pieces
}

/// The value of a string of decimal digits.
pub open spec fn decimal(s: Seq<char>) -> int
    decreases s.len(),
{
    if s.len() == 0 {
        0
    } else {
        decimal(s.drop_last()) * 10 + ((s.last() as int) - ('0' as int))
    }
}

pub open spec fn all_digits(s: Seq<char>) -> bool {
    forall|i: int| 0 <= i < s.len() ==> '0' <= #[trigger] s[i] && s[i] <= '9'
}

/// What `str::parse` gives for an unsigned integer type whose largest value
/// is `max`: an optional `+`, then one or more decimal digits whose value
/// is at most `max`; anything else is refused.
pub open spec fn parse_unsigned(s: Seq<char>, max: int) -> Option<int> {
    let d = if s.len() > 0 && s[0] == '+' {
        s.drop_first()
    } else {
        s
    };
    if d.len() > 0 && all_digits(d) && decimal(d) <= max {
        Some(decimal(d))
    } else {
        None
    }
}

/// A longer string of digits is worth at least as much as its prefix.
proof fn lemma_decimal_prefix(s: Seq<char>, k: int)
    requires
        all_digits(s),
        0 <= k <= s.len(),
    ensures
        decimal(s.take(k)) <= decimal(s),
        decimal(s) >= 0,
    decreases s.len(),
{
    if s.len() > 0 {
        let t = s.drop_last();
        assert(all_digits(t)) by {
            assert forall|i: int| 0 <= i < t.len() implies '0' <= #[trigger] t[i] && t[i] <= '9' by {
                assert(t[i] == s[i]);
            }
        }
        assert('0' <= s[s.len() - 1]);
        if k < s.len() {
            lemma_decimal_prefix(t, k);
            assert(t.take(k) =~= s.take(k));
        } else {
            assert(s.take(k) =~= s);
            lemma_decimal_prefix(t, 0);
        }
        assert(decimal(t) >= 0);
        assert(decimal(s) == decimal(t) * 10 + ((s.last() as int) - ('0' as int)));
    } else {
        assert(s.take(k) =~= s);
    }
}

/// Reads `s` as an unsigned number no larger than `max`, as `str::parse`
/// does for the integer type whose largest value is `max`.
pub fn parse_unsigned_exec(s: &str, max: u64) -> (res: Option<u64>)
    ensures
        match res {
            Some(v) => parse_unsigned(s@, max as int) == Some(v as int),
            None => parse_unsigned(s@, max as int) is None,
        },
{
    let n = s.unicode_len();
    if n == 0 {
        return None;
    }
    let mut i: usize = 0;
    if s.get_char(0) == '+' {
        i = 1;
    }
    if i == n {
        return None;
    }
    let ghost d = if s@[0] == '+' {
        s@.drop_first()
    } else {
        s@
    };
    let ghost first = i;
    assert(d =~= s@.subrange(first as int, n as int));
    let mut v: u64 = 0;
    while i < n
        invariant
            n == s@.len(),
            first <= i <= n,
            first == 0 || first == 1,
            d == s@.subrange(first as int, n as int),
            d == (if s@.len() > 0 && s@[0] == '+' {
                s@.drop_first()
            } else {
                s@
            }),
            d.len() > 0,
            all_digits(d.take(i - first)),
            v as int == decimal(d.take(i - first)),
            v <= max,
        decreases n - i,
    {
        let c = s.get_char(i);
        let ghost k = i - first;
        proof {
            assert(d[k as int] == c);
            assert(d.take(k as int + 1).drop_last() =~= d.take(k as int));
        }
        if !('0' <= c && c <= '9') {
            proof {
                assert(!all_digits(d));
            }
            return None;
        }
        let digit = (c as u32 - '0' as u32) as u64;
        if digit > max || v > (max - digit) / 10 {
            proof {
                assert(v * 10 + digit > max) by (nonlinear_arith)
                    requires
                        digit > max || v > (max - digit) / 10,
                        digit <= 9,
                ;
                assert(decimal(d.take(k as int + 1)) == v * 10 + digit);
                if all_digits(d) {
                    lemma_decimal_prefix(d, k as int + 1);
                }
            }
            return None;
        }
        proof {
            assert(v * 10 + digit <= max) by (nonlinear_arith)
                requires
                    v <= (max - digit) / 10,
                    digit <= max,
            ;
            assert(all_digits(d.take(k as int + 1))) by {
                assert forall|j: int| 0 <= j < k + 1 implies '0' <= #[trigger] d.take(k as int + 1)[j]
                    && d.take(k as int + 1)[j] <= '9' by {
                    if j < k {
                        assert(d.take(k as int + 1)[j] == d.take(k as int)[j]);
                    }
                }
            }
        }
        v = v * 10 + digit;
        i = i + 1;
    }
    assert(d.take(n - first) =~= d);
    Some(v)
}

} // verus!
