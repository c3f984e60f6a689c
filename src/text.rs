//! Character-level helpers for the filter syntax: splitting on a
//! separator, trimming white space, and reading decimal numbers.
use vstd::prelude::*;

verus! {

/// Whether `c` has Unicode's White_Space property.
pub open spec fn white_space(c: char) -> bool {
    let u = c as u32;
    ||| 0x09 <= u <= 0x0d
    ||| u == 0x20
    ||| u == 0x85
    ||| u == 0xa0
    ||| u == 0x1680
    ||| 0x2000 <= u <= 0x200a
    ||| u == 0x2028
    ||| u == 0x2029
    ||| u == 0x202f
    ||| u == 0x205f
    ||| u == 0x3000
}

/// Whether `c` is white space, as `char::is_whitespace` decides it.
pub fn is_white_space(c: char) -> (r: bool)
    ensures
        r == white_space(c),
{
    let u = c as u32;
    (0x09 <= u && u <= 0x0d) || u == 0x20 || u == 0x85 || u == 0xa0 || u == 0x1680 || (0x2000 <= u
        && u <= 0x200a) || u == 0x2028 || u == 0x2029 || u == 0x202f || u == 0x205f || u == 0x3000
}

/// The pieces of `s` between occurrences of `sep`; always at least one.
pub open spec fn split_on(s: Seq<char>, sep: char) -> Seq<Seq<char>>
    decreases s.len(),
{
    if s.len() == 0 {
        seq![Seq::empty()]
    } else {
        let prev = split_on(s.drop_last(), sep);
        if s.last() == sep {
            prev.push(Seq::empty())
        } else {
            prev.update(prev.len() - 1, prev.last().push(s.last()))
        }
    }
}

pub open spec fn trim_start(s: Seq<char>) -> Seq<char>
    decreases s.len(),
{
    if s.len() > 0 && white_space(s[0]) {
        trim_start(s.drop_first())
    } else {
        s
    }
}

pub open spec fn trim_end(s: Seq<char>) -> Seq<char>
    decreases s.len(),
{
    if s.len() > 0 && white_space(s.last()) {
        trim_end(s.drop_last())
    } else {
        s
    }
}

/// `s` without leading and trailing white space.
pub open spec fn trim(s: Seq<char>) -> Seq<char> {
    trim_end(trim_start(s))
}

pub open spec fn is_digit(c: char) -> bool {
    '0' <= c <= '9'
}

pub open spec fn all_digits(s: Seq<char>) -> bool {
    forall|i: int| 0 <= i < s.len() ==> is_digit(#[trigger] s[i])
}

/// The value of a string of decimal digits.
pub open spec fn digits_value(s: Seq<char>) -> int
    decreases s.len(),
{
    if s.len() == 0 {
        0
    } else {
        digits_value(s.drop_last()) * 10 + (s.last() as int - '0' as int)
    }
}

/// `s` without one leading `+`, if it has one.
pub open spec fn unsigned_part(s: Seq<char>) -> Seq<char> {
    if s.len() > 0 && s[0] == '+' {
        s.drop_first()
    } else {
        s
    }
}

/// The `usize` that `s` spells in decimal, with an optional leading `+`.
pub open spec fn parsed_number(s: Seq<char>) -> Option<usize> {
    let d = unsigned_part(s);
    if d.len() > 0 && all_digits(d) && digits_value(d) <= usize::MAX {
        Some(digits_value(d) as usize)
    } else {
        None
    }
}

proof fn lemma_split_nonempty(s: Seq<char>, sep: char)
    ensures
        split_on(s, sep).len() >= 1,
    decreases s.len(),
{
    if s.len() > 0 {
        lemma_split_nonempty(s.drop_last(), sep);
    }
}

/// `r` holds the bounds of the first pieces of `split_on(t, sep)`, as
/// positions in `s`.
pub open spec fn bounds_match(s: Seq<char>, r: Seq<(usize, usize)>, t: Seq<char>, sep: char) -> bool {
    forall|k: int|
        #![trigger r[k]]
        0 <= k < r.len() ==> {
            &&& r[k].0 <= r[k].1 <= t.len()
            &&& s.subrange(r[k].0 as int, r[k].1 as int) == split_on(t, sep)[k]
        }
}

/// Bounds `[start, end)` of each piece of `s` between occurrences of `sep`.
pub fn split_bounds(s: &str, sep: char) -> (r: Vec<(usize, usize)>)
    ensures
        r@.len() == split_on(s@, sep).len(),
        bounds_match(s@, r@, s@, sep),
{
    let n = s.unicode_len();
    let mut r: Vec<(usize, usize)> = Vec::new();
    let mut start: usize = 0;
    let mut i: usize = 0;
    while i < n
        invariant
            n == s@.len(),
            0 <= start <= i <= n,
            split_on(s@.subrange(0, i as int), sep).len() == r@.len() + 1,
            s@.subrange(start as int, i as int) == split_on(s@.subrange(0, i as int), sep).last(),
            bounds_match(s@, r@, s@.subrange(0, i as int), sep),
        decreases n - i,
    {
        let c = s.get_char(i);
        let ghost pre = s@.subrange(0, i as int);
        let ghost next = s@.subrange(0, i + 1);
        let ghost rold = r@;
        let ghost sold = start;
        assert(next.drop_last() =~= pre);
        assert(next.last() == c);
        proof {
            lemma_split_nonempty(pre, sep);
        }
        if c == sep {
            assert(split_on(next, sep) == split_on(pre, sep).push(Seq::empty()));
            r.push((start, i));
            start = i + 1;
            assert(s@.subrange(start as int, i + 1) =~= Seq::<char>::empty());
        } else {
            assert(split_on(next, sep) == split_on(pre, sep).update(
                split_on(pre, sep).len() - 1,
                split_on(pre, sep).last().push(c),
            ));
            assert(s@.subrange(start as int, i + 1) =~= s@.subrange(start as int, i as int).push(c));
        }
        i = i + 1;
        assert(s@.subrange(0, i as int) == next);
        let ghost t = s@.subrange(0, i as int);
        assert(t.len() == i);
        assert forall|k: int| 0 <= k < r@.len() implies {
            &&& #[trigger] r@[k].0 <= r@[k].1 <= t.len()
            &&& s@.subrange(r@[k].0 as int, r@[k].1 as int) == split_on(t, sep)[k]
        } by {
            if k < rold.len() {
                assert(r@[k] == rold[k]);
                assert(split_on(next, sep)[k] == split_on(pre, sep)[k]);
                assert(bounds_match(s@, rold, pre, sep));
                assert(rold[k].0 <= rold[k].1 <= pre.len());
            } else {
                assert(r@[k] == (sold, (i - 1) as usize));
            }
        }
    }
    assert(s@.subrange(0, n as int) =~= s@);
    let ghost before = r@;
    r.push((start, n));
    assert forall|k: int| 0 <= k < r@.len() implies {
        &&& #[trigger] r@[k].0 <= r@[k].1 <= s@.len()
        &&& s@.subrange(r@[k].0 as int, r@[k].1 as int) == split_on(s@, sep)[k]
    } by {
        if k < before.len() {
            assert(r@[k] == before[k]);
        }
    }
    r
}

/// Bounds `[i, j)` of `s[a..b]` without its leading and trailing white space.
pub fn trim_bounds(s: &str, a: usize, b: usize) -> (r: (usize, usize))
    requires
        a <= b <= s@.len(),
    ensures
        a <= r.0 <= r.1 <= b,
        s@.subrange(r.0 as int, r.1 as int) == trim(s@.subrange(a as int, b as int)),
{
    let mut i = a;
    while i < b && is_white_space(s.get_char(i))
        invariant
            a <= i <= b <= s@.len(),
            trim_start(s@.subrange(a as int, b as int)) == trim_start(s@.subrange(i as int, b as int)),
        decreases b - i,
    {
        assert(s@.subrange(i as int, b as int).drop_first() =~= s@.subrange(i + 1, b as int));
        i = i + 1;
    }
    let mut j = b;
    while j > i && is_white_space(s.get_char(j - 1))
        invariant
            a <= i <= j <= b <= s@.len(),
            trim_end(s@.subrange(i as int, b as int)) == trim_end(s@.subrange(i as int, j as int)),
        decreases j - i,
    {
        assert(s@.subrange(i as int, j as int).drop_last() =~= s@.subrange(i as int, j - 1));
        j = j - 1;
    }
    (i, j)
}

proof fn lemma_digits_grow(s: Seq<char>, i: int, j: int)
    requires
        all_digits(s),
        0 <= i <= j <= s.len(),
    ensures
        0 <= digits_value(s.subrange(0, i)) <= digits_value(s.subrange(0, j)),
    decreases j,
{
    if j > 0 {
        assert(s.subrange(0, j).drop_last() =~= s.subrange(0, j - 1));
        if i < j {
            lemma_digits_grow(s, i, j - 1);
        } else {
            lemma_digits_grow(s, j - 1, j - 1);
        }
    } else {
        assert(s.subrange(0, 0).len() == 0);
    }
}

/// Reads the decimal number spelled by `s[a..b]` (optionally after `+`).
pub fn parse_number(s: &str, a: usize, b: usize) -> (r: Option<usize>)
    requires
        a <= b <= s@.len(),
    ensures
        r == parsed_number(s@.subrange(a as int, b as int)),
{
    let ghost whole = s@.subrange(a as int, b as int);
    let mut from = a;
    if a < b && s.get_char(a) == '+' {
        from = a + 1;
    }
    let ghost d = s@.subrange(from as int, b as int);
    assert(d =~= unsigned_part(whole));
    if from == b {
        return None;
    }
    let mut i = from;
    while i < b
        invariant
            a <= from <= i <= b <= s@.len(),
            d == s@.subrange(from as int, b as int),
            d == unsigned_part(whole),
            whole == s@.subrange(a as int, b as int),
            forall|k: int| 0 <= k < i - from ==> is_digit(#[trigger] d[k]),
        decreases b - i,
    {
        let c = s.get_char(i);
        if !(c >= '0' && c <= '9') {
            assert(!is_digit(d[i - from]));
            assert(!all_digits(d));
            return None;
        }
        i = i + 1;
    }
    let mut value: usize = 0;
    let mut k = from;
    while k < b
        invariant
            from <= k <= b <= s@.len(),
            d == s@.subrange(from as int, b as int),
            d == unsigned_part(whole),
            whole == s@.subrange(a as int, b as int),
            all_digits(d),
            value == digits_value(d.subrange(0, k - from)),
        decreases b - k,
    {
        let c = s.get_char(k);
        assert(c == d[k - from]);
        let dv = (c as u32 - '0' as u32) as usize;
        assert(dv == c as int - '0' as int);
        assert(d.subrange(0, k - from + 1).drop_last() =~= d.subrange(0, k - from));
        if value > (usize::MAX - dv) / 10 {
            assert(value * 10 + dv > usize::MAX) by (nonlinear_arith)
                requires
                    value > (usize::MAX - dv) / 10,
                    dv <= 9,
            ;
            proof {
                lemma_digits_grow(d, k - from + 1, d.len() as int);
                assert(d.subrange(0, d.len() as int) =~= d);
                assert(digits_value(d.subrange(0, k - from + 1)) == value * 10 + dv);
            }
            return None;
        }
        assert(value * 10 + dv <= usize::MAX) by (nonlinear_arith)
            requires
                value <= (usize::MAX - dv) / 10,
                dv <= 9,
        ;
        value = value * 10 + dv;
        k = k + 1;
    }
    assert(d.subrange(0, d.len() as int) =~= d);
    Some(value)
}

/// The character of decimal digit `d`.
pub open spec fn digit_char(d: nat) -> char {
    ('0' as nat + d) as char
}

/// The decimal digits of `n`, without sign or padding.
pub open spec fn decimal(n: nat) -> Seq<char>
    decreases n,
{
    if n < 10 {
        seq![digit_char(n)]
    } else {
        decimal(n / 10).push(digit_char(n % 10))
    }
}

/// Relies on `usize`'s `Display` through `ToString::to_string`: plain
/// decimal digits, without sign or padding.
#[verifier::external_body]
fn decimal_string(n: usize) -> (r: String)
    ensures
        r@ == decimal(n as nat),
{
    n.to_string()
}

/// `prefix`, an underscore, and `index` in decimal.
pub fn numbered_name(prefix: &str, index: usize) -> (r: String)
    ensures
        r@ == prefix@ + seq!['_'] + decimal(index as nat),
{
    let mut name = String::from_str(prefix);
    let sep = "_";
    proof {
        reveal_strlit("_");
    }
    name.append(sep);
    let digits = decimal_string(index);
    name.append(digits.as_str());
    assert(sep@ =~= seq!['_']);
    name
}

} // verus!
