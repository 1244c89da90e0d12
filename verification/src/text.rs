use vstd::prelude::*;

verus! {

/// `String::push`: appends one character to the end of the string.
#[verifier::external_body]
pub(crate) fn push_char(s: &mut String, c: char)
    ensures
        final(s)@ == old(s)@.push(c),
{
    s.push(c);
}

/// The characters of a string slice, in order.
pub fn chars_of(s: &str) -> (v: Vec<char>)
    ensures
        v@ == s@,
{
    let mut v: Vec<char> = Vec::new();
    for c in it: s.chars()
        invariant
            v@ == it.seq().take(it.index() as int),
    {
        v.push(c);
    }
    v
}

/// A string holding exactly the given characters.
pub fn string_of(v: &Vec<char>) -> (s: String)
    ensures
        s@ == v@,
{
    let mut s = String::new();
    let mut i: usize = 0;
    while i < v.len()
        invariant
            i <= v@.len(),
            s@ == v@.take(i as int),
        decreases v@.len() - i,
    {
        let ghost prev = s@;
        push_char(&mut s, v[i]);
        assert(v@.take(i + 1) =~= prev.push(v@[i as int]));
        i += 1;
    }
    assert(v@.take(v@.len() as int) =~= v@);
    s
}

/// Appends a string slice to the end of a string.
pub fn push_str(s: &mut String, t: &str)
    ensures
        final(s)@ == old(s)@ + t@,
{
    let ghost start = s@;
    for c in it: t.chars()
        invariant
            s@ == start + it.seq().take(it.index() as int),
    {
        let ghost prev = s@;
        push_char(s, c);
        assert(start + it.seq().take(it.index() + 1) =~= prev.push(c));
    }
    assert(t@.take(t@.len() as int) =~= t@);
}

/// A new string holding the characters of `t`.
pub fn owned(t: &str) -> (s: String)
    ensures
        s@ == t@,
{
    let mut s = String::new();
    push_str(&mut s, t);
    assert(s@ =~= t@);
    s
}

/// Whether two string slices hold the same characters.
pub fn same_text(a: &str, b: &str) -> (r: bool)
    ensures
        r == (a@ == b@),
{
    let x = chars_of(a);
    let y = chars_of(b);
    if x.len() != y.len() {
        return false;
    }
    let mut i: usize = 0;
    while i < x.len()
        invariant
            x@ == a@,
            y@ == b@,
            x@.len() == y@.len(),
            i <= x@.len(),
            forall|j: int| 0 <= j < i ==> x@[j] == y@[j],
        decreases x@.len() - i,
    {
        if x[i] != y[i] {
            return false;
        }
        i += 1;
    }
    assert(x@ =~= y@);
    true
}

/// The decimal digit character for `d < 10`.
pub open spec fn digit_char(d: int) -> char {
    (d + 48) as char
}

/// The decimal writing of `n`, without leading zeros (`0` is written `"0"`).
pub open spec fn decimal(n: nat) -> Seq<char>
    decreases n,
{
    if n < 10 {
        seq![digit_char(n as int)]
    } else {
        decimal(n / 10).push(digit_char((n % 10) as int))
    }
}

/// `n` written in decimal with leading zeros up to `width` characters.
pub open spec fn zero_padded(n: nat, width: nat) -> Seq<char> {
    let d = decimal(n);
    if d.len() >= width {
        d
    } else {
        Seq::new((width - d.len()) as nat, |i: int| '0') + d
    }
}

/// The character for a decimal digit.
pub fn digit_to_char(d: u64) -> (c: char)
    requires
        d < 10,
    ensures
        c == digit_char(d as int),
{
    match d {
        0 => '0',
        1 => '1',
        2 => '2',
        3 => '3',
        4 => '4',
        5 => '5',
        6 => '6',
        7 => '7',
        8 => '8',
        _ => '9',
    }
}

pub proof fn lemma_decimal_len(n: nat)
    ensures
        n < 10 ==> decimal(n).len() == 1,
        n < 100 ==> decimal(n).len() <= 2,
        n < 1000 ==> decimal(n).len() <= 3,
        n < 10000 ==> decimal(n).len() <= 4,
        decimal(n).len() >= 1,
    decreases n,
{
    if n >= 10 {
        lemma_decimal_len(n / 10);
    }
}

/// The decimal writing of `n`.
pub fn decimal_digits(n: u64) -> (v: Vec<char>)
    ensures
        v@ == decimal(n as nat),
    decreases n,
{
    if n < 10 {
        let mut v = Vec::new();
        v.push(digit_to_char(n));
        assert(v@ =~= decimal(n as nat));
        v
    } else {
        let mut v = decimal_digits(n / 10);
        v.push(digit_to_char(n % 10));
        v
    }
}

/// Appends the decimal writing of `n`.
pub fn push_decimal(s: &mut String, n: u64)
    ensures
        final(s)@ == old(s)@ + decimal(n as nat),
{
    let v = decimal_digits(n);
    let ghost start = s@;
    let mut i: usize = 0;
    while i < v.len()
        invariant
            v@ == decimal(n as nat),
            i <= v@.len(),
            s@ == start + v@.take(i as int),
        decreases v@.len() - i,
    {
        let ghost prev = s@;
        push_char(s, v[i]);
        assert(start + v@.take(i + 1) =~= prev.push(v@[i as int]));
        i += 1;
    }
    assert(v@.take(v@.len() as int) =~= v@);
}

/// Appends `n` in decimal, with leading zeros up to `width` characters.
pub fn push_zero_padded(s: &mut String, n: u64, width: u64)
    requires
        width <= 64,
    ensures
        final(s)@ == old(s)@ + zero_padded(n as nat, width as nat),
{
    let v = decimal_digits(n);
    let ghost start = s@;
    let len = v.len() as u64;
    let mut k: u64 = 0;
    if len < width {
        while k < width - len
            invariant
                len == v@.len(),
                len < width,
                k <= width - len,
                s@ == start + Seq::new(k as nat, |i: int| '0'),
            decreases width - len - k,
        {
            let ghost prev = s@;
            push_char(s, '0');
            assert(start + Seq::new((k + 1) as nat, |i: int| '0') =~= prev.push('0'));
            k += 1;
        }
    }
    let ghost mid = s@;
    let mut i: usize = 0;
    while i < v.len()
        invariant
            v@ == decimal(n as nat),
            i <= v@.len(),
            s@ == mid + v@.take(i as int),
        decreases v@.len() - i,
    {
        let ghost prev = s@;
        push_char(s, v[i]);
        assert(mid + v@.take(i + 1) =~= prev.push(v@[i as int]));
        i += 1;
    }
    assert(v@.take(v@.len() as int) =~= v@);
    assert(s@ =~= start + zero_padded(n as nat, width as nat));
}


/// Whether `list` holds a string equal to `x`.
pub fn contains_text(list: &Vec<String>, x: &str) -> (r: bool)
    ensures
        r == list.deep_view().contains(x@),
{
    let mut i: usize = 0;
    while i < list.len()
        invariant
            i <= list@.len(),
            forall|j: int| 0 <= j < i ==> list.deep_view()[j] != x@,
        decreases list@.len() - i,
    {
        assert(list.deep_view()[i as int] == list@[i as int]@);
        if same_text(list[i].as_str(), x) {
            return true;
        }
        i += 1;
    }
    proof {
        if list.deep_view().contains(x@) {
            let k = choose|k: int| 0 <= k < list.deep_view().len() && list.deep_view()[k] == x@;
            assert(list.deep_view()[k] != x@);
        }
    }
    false
}

/// The first `k` characters of `s` (all of them when it is shorter).
pub fn take_chars(s: &str, k: usize) -> (r: String)
    ensures
        k <= s@.len() ==> r@ == s@.take(k as int),
        k > s@.len() ==> r@ == s@,
{
    let v = chars_of(s);
    let mut out: Vec<char> = Vec::new();
    let mut i: usize = 0;
    while i < k && i < v.len()
        invariant
            v@ == s@,
            i <= v@.len(),
            i <= k,
            out@ == v@.take(i as int),
        decreases v@.len() - i,
    {
        out.push(v[i]);
        assert(v@.take(i + 1) =~= v@.take(i as int).push(v@[i as int]));
        i += 1;
    }
    if k > v.len() {
        assert(v@.take(v@.len() as int) =~= v@);
    }
    string_of(&out)
}


/// Every character of `s` is an ASCII decimal digit.
pub open spec fn all_digits(s: Seq<char>) -> bool {
    forall|i: int| 0 <= i < s.len() ==> '0' <= #[trigger] s[i] <= '9'
}

/// The number written by the decimal digits `s`.
pub open spec fn digits_value(s: Seq<char>) -> int
    decreases s.len(),
{
    if s.len() == 0 {
        0
    } else {
        digits_value(s.drop_last()) * 10 + (s.last() as int - 48)
    }
}

/// The integer written by `s`: an optional `+` or `-` followed by at least one decimal
/// digit, and nothing else.
pub open spec fn integer_value(s: Seq<char>) -> Option<int> {
    if s.len() == 0 {
        None
    } else if s[0] == '+' || s[0] == '-' {
        let digits = s.drop_first();
        if digits.len() == 0 || !all_digits(digits) {
            None
        } else if s[0] == '-' {
            Some(-digits_value(digits))
        } else {
            Some(digits_value(digits))
        }
    } else if all_digits(s) {
        Some(digits_value(s))
    } else {
        None
    }
}

/// What `s.parse::<i64>()` gives: the integer that `s` writes, when it is one and fits.
pub open spec fn i64_value(s: Seq<char>) -> Option<i64> {
    match integer_value(s) {
        Some(v) => if i64::MIN <= v <= i64::MAX {
            Some(v as i64)
        } else {
            None
        },
        None => None,
    }
}

/// Digits values are never negative.
pub proof fn lemma_digits_value_nonneg(s: Seq<char>)
    requires
        all_digits(s),
    ensures
        digits_value(s) >= 0,
    decreases s.len(),
{
    if s.len() > 0 {
        assert(all_digits(s.drop_last())) by {
            assert forall|i: int| 0 <= i < s.drop_last().len() implies '0' <= #[trigger] s.drop_last()[i] <= '9' by {
                assert(s.drop_last()[i] == s[i]);
            }
        }
        lemma_digits_value_nonneg(s.drop_last());
        assert('0' <= s[s.len() - 1] <= '9');
    }
}

/// The decimal writing of `n` is made of digits and reads back as `n`.
pub proof fn lemma_decimal_value(n: nat)
    ensures
        all_digits(decimal(n)),
        digits_value(decimal(n)) == n,
        decimal(n).len() >= 1,
    decreases n,
{
    if n < 10 {
        assert(digit_char(n as int) as int == n + 48);
        assert(decimal(n).drop_last() =~= Seq::<char>::empty());
        assert(digits_value(decimal(n)) == digits_value(decimal(n).drop_last()) * 10 + (decimal(n).last() as int - 48));
    } else {
        lemma_decimal_value(n / 10);
        let d = decimal(n);
        assert(d.drop_last() =~= decimal(n / 10));
        assert(d.last() == digit_char((n % 10) as int));
        assert(digit_char((n % 10) as int) as int == n % 10 + 48);
        assert(n == (n / 10) * 10 + n % 10);
        assert(digits_value(d) == digits_value(d.drop_last()) * 10 + (d.last() as int - 48));
        assert forall|i: int| 0 <= i < d.len() implies '0' <= #[trigger] d[i] <= '9' by {
            if i < d.len() - 1 {
                assert(d[i] == decimal(n / 10)[i]);
            }
        }
    }
}

/// Leading zeros do not change the value of digits.
pub proof fn lemma_leading_zeros(k: nat, d: Seq<char>)
    ensures
        digits_value(Seq::new(k, |i: int| '0') + d) == digits_value(d),
    decreases d.len() + k,
{
    let z = Seq::new(k, |i: int| '0');
    if d.len() == 0 {
        assert(z + d =~= z);
        if k > 0 {
            assert(z.drop_last() =~= Seq::new((k - 1) as nat, |i: int| '0'));
            lemma_leading_zeros((k - 1) as nat, d);
            assert(Seq::new((k - 1) as nat, |i: int| '0') + d =~= Seq::new((k - 1) as nat, |i: int| '0'));
        }
    } else {
        assert((z + d).drop_last() =~= z + d.drop_last());
        lemma_leading_zeros(k, d.drop_last());
    }
}

/// `n` written with leading zeros is made of digits, at least `width` and at least one of
/// them, and reads back as `n`.
pub proof fn lemma_zero_padded_value(n: nat, width: nat)
    ensures
        all_digits(zero_padded(n, width)),
        digits_value(zero_padded(n, width)) == n,
        zero_padded(n, width).len() >= 1,
        zero_padded(n, width).len() >= width,
        n < 10000 && width == 4 ==> zero_padded(n, width).len() == 4,
        n < 1000 && width == 3 ==> zero_padded(n, width).len() == 3,
        n < 100 && width == 2 ==> zero_padded(n, width).len() == 2,
{
    lemma_decimal_value(n);
    lemma_decimal_len(n);
    let d = decimal(n);
    if d.len() < width {
        let k = (width - d.len()) as nat;
        lemma_leading_zeros(k, d);
        let z = zero_padded(n, width);
        assert forall|i: int| 0 <= i < z.len() implies '0' <= #[trigger] z[i] <= '9' by {
            if i >= k {
                assert(z[i] == d[i - k]);
            }
        }
    }
}

/// Digits with at least one digit and a value within `i64` read as that value.
pub proof fn lemma_digits_i64(s: Seq<char>)
    requires
        all_digits(s),
        s.len() >= 1,
        digits_value(s) <= i64::MAX,
    ensures
        i64_value(s) == Some(digits_value(s) as i64),
{
    lemma_digits_value_nonneg(s);
    assert('0' <= s[0] <= '9');
}

/// Parses a decimal integer the way `str::parse::<i64>` does: an optional sign, then at
/// least one ASCII digit; `None` for anything else or a value outside `i64`.
pub fn parse_i64(s: &str) -> (r: Option<i64>)
    ensures
        r == i64_value(s@),
{
    let v = chars_of(s);
    if v.len() == 0 {
        return None;
    }
    let negative = v[0] == '-';
    let start: usize = if v[0] == '+' || v[0] == '-' { 1 } else { 0 };
    if start == 1 && v.len() == 1 {
        return None;
    }
    let ghost digits = v@.skip(start as int);
    let cap: u128 = 0x8000_0000_0000_0001;
    let mut acc: u128 = 0;
    let mut i: usize = start;
    proof {
        assert(digits.take(0) =~= Seq::<char>::empty());
    }
    while i < v.len()
        invariant
            v@ == s@,
            v@.len() > 0,
            start == (if v@[0] == '+' || v@[0] == '-' { 1usize } else { 0usize }),
            negative == (v@[0] == '-'),
            digits == v@.skip(start as int),
            start <= i <= v@.len(),
            all_digits(digits.take(i - start)),
            cap == 0x8000_0000_0000_0001,
            acc <= cap,
            acc == if digits_value(digits.take(i - start)) < cap { digits_value(digits.take(i - start)) } else { cap as int },
        decreases v@.len() - i,
    {
        let c = v[i];
        let ghost pre = digits.take(i - start);
        assert(digits.take(i - start + 1).drop_last() =~= pre);
        assert(digits.take(i - start + 1).last() == c);
        if c < '0' || c > '9' {
            assert(!all_digits(digits)) by {
                assert(digits[i - start] == c);
            }
            proof {
                if s@[0] == '+' || s@[0] == '-' {
                    assert(digits =~= s@.drop_first());
                } else {
                    assert(digits =~= s@);
                }
            }
            return None;
        }
        let d = (c as u32 - 48) as u128;
        proof {
            lemma_digits_value_nonneg(pre);
            assert(all_digits(digits.take(i - start + 1))) by {
                assert forall|j: int| 0 <= j < digits.take(i - start + 1).len() implies '0' <= #[trigger] digits.take(i - start + 1)[j] <= '9' by {
                    if j < pre.len() {
                        assert(digits.take(i - start + 1)[j] == pre[j]);
                    }
                }
            }
        }
        let next = acc * 10 + d;
        acc = if next < cap { next } else { cap };
        i += 1;
    }
    assert(digits.take(v@.len() - start) =~= digits);
    proof {
        lemma_digits_value_nonneg(digits);
        if s@[0] == '+' || s@[0] == '-' {
            assert(digits =~= s@.drop_first());
        } else {
            assert(digits =~= s@);
        }
    }
    if negative {
        if acc > 0x8000_0000_0000_0000 {
            None
        } else {
            Some((0 - (acc as i128)) as i64)
        }
    } else {
        if acc > 0x7fff_ffff_ffff_ffff {
            None
        } else {
            Some(acc as i64)
        }
    }
}

/// `s` without its trailing run of `c`.
pub open spec fn trim_trailing(s: Seq<char>, c: char) -> Seq<char>
    decreases s.len(),
{
    if s.len() > 0 && s.last() == c {
        trim_trailing(s.drop_last(), c)
    } else {
        s
    }
}

/// `s` without its trailing run of `c`.
pub fn trim_trailing_chars(s: &Vec<char>, c: char) -> (r: Vec<char>)
    ensures
        r@ == trim_trailing(s@, c),
{
    let mut n = s.len();
    assert(s@.take(n as int) =~= s@);
    while n > 0 && s[n - 1] == c
        invariant
            n <= s@.len(),
            trim_trailing(s@.take(n as int), c) == trim_trailing(s@, c),
        decreases n,
    {
        assert(s@.take(n as int).drop_last() =~= s@.take(n - 1));
        n -= 1;
    }
    let mut r: Vec<char> = Vec::new();
    let mut i: usize = 0;
    while i < n
        invariant
            n <= s@.len(),
            i <= n,
            r@ == s@.take(i as int),
        decreases n - i,
    {
        r.push(s[i]);
        assert(s@.take(i + 1) =~= s@.take(i as int).push(s@[i as int]));
        i += 1;
    }
    proof {
        assert(s@.take(s@.len() as int) =~= s@);
        let t = s@.take(n as int);
        assert(!(t.len() > 0 && t.last() == c));
    }
    r
}

} // verus!
