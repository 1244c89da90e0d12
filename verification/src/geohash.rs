use vstd::prelude::*;
use crate::text::{contains_text, chars_of, string_of, push_char, push_str, push_decimal, push_zero_padded, decimal, zero_padded, digit_char, digit_to_char};
use vstd::arithmetic::power2::{pow2, lemma_pow2_unfold, lemma_pow2_adds, lemma_pow2_pos, lemma2_to64, lemma2_to64_rest, lemma_pow2_strictly_increases};
use vstd::arithmetic::div_mod::{lemma_fundamental_div_mod, lemma_fundamental_div_mod_converse, lemma_div_denominator, lemma_mod_bound};

verus! {

/// The longest geohash that a cell of this library can hold: 25 characters
/// carry 125 bits, 63 of longitude and 62 of latitude, which fit in a `u64` each.
pub const MAX_PRECISION: u8 = 25;

/// The geohash alphabet: digit `d` (0..32) is written as `base32_char_of(d)`.
pub open spec fn base32_char_of(d: int) -> char {
    if d == 0 {
        '0'
    } else if d == 1 {
        '1'
    } else if d == 2 {
        '2'
    } else if d == 3 {
        '3'
    } else if d == 4 {
        '4'
    } else if d == 5 {
        '5'
    } else if d == 6 {
        '6'
    } else if d == 7 {
        '7'
    } else if d == 8 {
        '8'
    } else if d == 9 {
        '9'
    } else if d == 10 {
        'b'
    } else if d == 11 {
        'c'
    } else if d == 12 {
        'd'
    } else if d == 13 {
        'e'
    } else if d == 14 {
        'f'
    } else if d == 15 {
        'g'
    } else if d == 16 {
        'h'
    } else if d == 17 {
        'j'
    } else if d == 18 {
        'k'
    } else if d == 19 {
        'm'
    } else if d == 20 {
        'n'
    } else if d == 21 {
        'p'
    } else if d == 22 {
        'q'
    } else if d == 23 {
        'r'
    } else if d == 24 {
        's'
    } else if d == 25 {
        't'
    } else if d == 26 {
        'u'
    } else if d == 27 {
        'v'
    } else if d == 28 {
        'w'
    } else if d == 29 {
        'x'
    } else if d == 30 {
        'y'
    } else {
        'z'
    }
}

/// The value of a geohash character, or `None` for a character outside the alphabet.
pub open spec fn base32_value(c: char) -> Option<int> {
    match c {
        '0' => Some(0int),
        '1' => Some(1int),
        '2' => Some(2int),
        '3' => Some(3int),
        '4' => Some(4int),
        '5' => Some(5int),
        '6' => Some(6int),
        '7' => Some(7int),
        '8' => Some(8int),
        '9' => Some(9int),
        'b' => Some(10int),
        'c' => Some(11int),
        'd' => Some(12int),
        'e' => Some(13int),
        'f' => Some(14int),
        'g' => Some(15int),
        'h' => Some(16int),
        'j' => Some(17int),
        'k' => Some(18int),
        'm' => Some(19int),
        'n' => Some(20int),
        'p' => Some(21int),
        'q' => Some(22int),
        'r' => Some(23int),
        's' => Some(24int),
        't' => Some(25int),
        'u' => Some(26int),
        'v' => Some(27int),
        'w' => Some(28int),
        'x' => Some(29int),
        'y' => Some(30int),
        'z' => Some(31int),
        _ => None,
    }
}

/// Every character of `s` is a geohash digit.
pub open spec fn is_geohash(s: Seq<char>) -> bool {
    forall|i: int| 0 <= i < s.len() ==> (#[trigger] base32_value(s[i])) is Some
}

/// The value of the geohash digit `c`.
pub open spec fn digit(c: char) -> int {
    base32_value(c).unwrap()
}

/// The alphabet and the value table are inverse to each other.
pub proof fn lemma_base32_inverse(d: int, c: char)
    ensures
        0 <= d < 32 ==> base32_value(base32_char_of(d)) == Some(d),
        base32_value(c) matches Some(v) ==> 0 <= v < 32 && base32_char_of(v) == c,
{
}

/// Index of a geohash character in the alphabet.
pub fn base32_inv(c: char) -> (r: Option<u8>)
    ensures
        r matches Some(v) ==> base32_value(c) == Some(v as int),
        r is None ==> base32_value(c) is None,
{
    match c {
        '0' => Some(0),
        '1' => Some(1),
        '2' => Some(2),
        '3' => Some(3),
        '4' => Some(4),
        '5' => Some(5),
        '6' => Some(6),
        '7' => Some(7),
        '8' => Some(8),
        '9' => Some(9),
        'b' => Some(10),
        'c' => Some(11),
        'd' => Some(12),
        'e' => Some(13),
        'f' => Some(14),
        'g' => Some(15),
        'h' => Some(16),
        'j' => Some(17),
        'k' => Some(18),
        'm' => Some(19),
        'n' => Some(20),
        'p' => Some(21),
        'q' => Some(22),
        'r' => Some(23),
        's' => Some(24),
        't' => Some(25),
        'u' => Some(26),
        'v' => Some(27),
        'w' => Some(28),
        'x' => Some(29),
        'y' => Some(30),
        'z' => Some(31),
        _ => None,
    }
}

/// The character that writes geohash digit `d`.
pub fn base32_char(d: u8) -> (c: char)
    requires
        d < 32,
    ensures
        c == base32_char_of(d as int),
{
    match d {
        0 => '0',
        1 => '1',
        2 => '2',
        3 => '3',
        4 => '4',
        5 => '5',
        6 => '6',
        7 => '7',
        8 => '8',
        9 => '9',
        10 => 'b',
        11 => 'c',
        12 => 'd',
        13 => 'e',
        14 => 'f',
        15 => 'g',
        16 => 'h',
        17 => 'j',
        18 => 'k',
        19 => 'm',
        20 => 'n',
        21 => 'p',
        22 => 'q',
        23 => 'r',
        24 => 's',
        25 => 't',
        26 => 'u',
        27 => 'v',
        28 => 'w',
        29 => 'x',
        30 => 'y',
        _ => 'z',
    }
}


/// Number of latitude bits in a geohash of `p` characters.
pub open spec fn lat_bits(p: nat) -> nat {
    (5 * p) / 2
}

/// Number of longitude bits in a geohash of `p` characters (the first bit is a longitude bit).
pub open spec fn lon_bits(p: nat) -> nat {
    (5 * p + 1) / 2
}

/// The three bits of a digit at its positions 0, 2 and 4 (from the most significant).
pub open spec fn outer_bits(d: int) -> int {
    (d / 16 % 2) * 4 + (d / 4 % 2) * 2 + d % 2
}

/// The two bits of a digit at its positions 1 and 3 (from the most significant).
pub open spec fn inner_bits(d: int) -> int {
    (d / 8 % 2) * 2 + d / 2 % 2
}

/// The digit whose outer bits are `a` and whose inner bits are `b`.
pub open spec fn interleave(a: int, b: int) -> int {
    (a / 4) * 16 + (b / 2) * 8 + (a / 2 % 2) * 4 + (b % 2) * 2 + a % 2
}

/// Appends digit `d`, the `i`-th character of a geohash, to the cell `(lat, lon)`.
/// Bits alternate longitude, latitude, longitude, ... across the whole hash, so a digit
/// at an even position carries three longitude bits and two latitude bits, and a digit
/// at an odd position the other way round.
pub open spec fn push_digit(cell: (int, int), i: int, d: int) -> (int, int) {
    if i % 2 == 0 {
        (cell.0 * 4 + inner_bits(d), cell.1 * 8 + outer_bits(d))
    } else {
        (cell.0 * 8 + outer_bits(d), cell.1 * 4 + inner_bits(d))
    }
}

/// The cell `(latitude index, longitude index)` that a geohash names, counted from the
/// south-west corner of the world.
pub open spec fn decode_seq(s: Seq<char>) -> (int, int)
    decreases s.len(),
{
    if s.len() == 0 {
        (0, 0)
    } else {
        push_digit(decode_seq(s.drop_last()), s.len() - 1, digit(s.last()))
    }
}

/// A grid cell at a given geohash precision.
#[derive(Clone, Copy, Debug, PartialEq, Eq, Structural)]
pub struct Cell {
    pub precision: u8,
    pub lat: u64,
    pub lon: u64,
}

impl Cell {
    /// The precision is supported and both indices lie on the grid of that precision.
    pub open spec fn wf(self) -> bool {
        &&& self.precision <= MAX_PRECISION
        &&& self.lat < pow2(lat_bits(self.precision as nat))
        &&& self.lon < pow2(lon_bits(self.precision as nat))
    }

    pub open spec fn indices(self) -> (int, int) {
        (self.lat as int, self.lon as int)
    }
}

/// How many bits each coordinate gains with the `i`-th digit.
pub proof fn lemma_bits_step(i: nat)
    ensures
        i % 2 == 0 ==> lat_bits(i + 1) == lat_bits(i) + 2 && lon_bits(i + 1) == lon_bits(i) + 3,
        i % 2 == 1 ==> lat_bits(i + 1) == lat_bits(i) + 3 && lon_bits(i + 1) == lon_bits(i) + 2,
        lat_bits(i) <= lat_bits(i + 1),
        lon_bits(i) <= lon_bits(i + 1),
{
    let k = i / 2;
    if i % 2 == 0 {
        assert(i == 2 * k);
        assert(lat_bits(i) == 5 * k);
        assert(lon_bits(i) == 5 * k);
        assert(lat_bits(i + 1) == 5 * k + 2);
        assert(lon_bits(i + 1) == 5 * k + 3);
    } else {
        assert(i == 2 * k + 1);
        assert(lat_bits(i) == 5 * k + 2);
        assert(lon_bits(i) == 5 * k + 3);
        assert(lat_bits(i + 1) == 5 * k + 5);
        assert(lon_bits(i + 1) == 5 * k + 5);
    }
}

/// Digits split into outer and inner bits and are rebuilt from them.
pub proof fn lemma_digit_bits(d: int, a: int, b: int)
    ensures
        0 <= d < 32 ==> interleave(outer_bits(d), inner_bits(d)) == d && 0 <= outer_bits(d) < 8
            && 0 <= inner_bits(d) < 4,
        0 <= a < 8 && 0 <= b < 4 ==> outer_bits(interleave(a, b)) == a && inner_bits(
            interleave(a, b),
        ) == b && 0 <= interleave(a, b) < 32,
{
    assert(0 <= d < 32 ==> interleave(outer_bits(d), inner_bits(d)) == d && 0 <= outer_bits(d) < 8
        && 0 <= inner_bits(d) < 4) by (nonlinear_arith);
    assert(0 <= a < 8 && 0 <= b < 4 ==> outer_bits(interleave(a, b)) == a && inner_bits(
        interleave(a, b),
    ) == b && 0 <= interleave(a, b) < 32) by (nonlinear_arith);
}

/// Appending `k` low bits `c` to `x < 2^b` gives a value below `2^(b+k)`.
pub proof fn lemma_grow(x: int, b: nat, k: nat, c: int)
    requires
        0 <= x < pow2(b),
        0 <= c < pow2(k),
    ensures
        0 <= x * pow2(k) + c < pow2(b + k),
{
    lemma_pow2_adds(b, k);
    assert(x * pow2(k) + c < pow2(b) * pow2(k)) by (nonlinear_arith)
        requires
            0 <= x < pow2(b),
            0 <= c < pow2(k),
    ;
    assert(0 <= x * pow2(k)) by (nonlinear_arith)
        requires
            0 <= x,
            0 <= pow2(k),
    ;
}


/// Powers of two up to `2^63` fit in a `u64`.
pub proof fn lemma_pow2_fits(e: nat)
    requires
        e <= 63,
    ensures
        0 < pow2(e) <= 0x8000_0000_0000_0000,
{
    lemma2_to64();
    lemma2_to64_rest();
    lemma_pow2_pos(e);
    if e < 63 {
        lemma_pow2_strictly_increases(e, 63);
    }
}

/// The largest supported precision leaves room for both indices in a `u64`.
pub proof fn lemma_bits_fit(p: nat)
    requires
        p <= MAX_PRECISION,
    ensures
        lat_bits(p) <= 62,
        lon_bits(p) <= 63,
{
}

/// The cell that a geohash names.
pub fn decode_cell(geohash: &str) -> (cell: Cell)
    requires
        is_geohash(geohash@),
        geohash@.len() <= MAX_PRECISION,
    ensures
        cell.precision == geohash@.len(),
        cell.indices() == decode_seq(geohash@),
        cell.wf(),
{
    let chars = chars_of(geohash);
    let n = chars.len();
    let mut lat: u64 = 0;
    let mut lon: u64 = 0;
    let mut i: usize = 0;
    proof {
        lemma2_to64();
        assert(chars@.take(0) =~= Seq::<char>::empty());
    }
    while i < n
        invariant
            n == chars@.len(),
            chars@ == geohash@,
            n <= MAX_PRECISION,
            i <= n,
            is_geohash(chars@),
            (lat as int, lon as int) == decode_seq(chars@.take(i as int)),
            lat < pow2(lat_bits(i as nat)),
            lon < pow2(lon_bits(i as nat)),
        decreases n - i,
    {
        assert(base32_value(chars@[i as int]) is Some);
        let d = base32_inv(chars[i]).unwrap();
        let outer: u8 = (d / 16 % 2) * 4 + (d / 4 % 2) * 2 + d % 2;
        let inner: u8 = (d / 8 % 2) * 2 + d / 2 % 2;
        proof {
            lemma_base32_inverse(0, chars@[i as int]);
            lemma_digit_bits(d as int, 0, 0);
            lemma_bits_step(i as nat);
            lemma_bits_fit((i + 1) as nat);
            lemma_pow2_fits(lat_bits((i + 1) as nat));
            lemma_pow2_fits(lon_bits((i + 1) as nat));
            lemma2_to64();
            if i % 2 == 0 {
                lemma_grow(lat as int, lat_bits(i as nat), 2, inner as int);
                lemma_grow(lon as int, lon_bits(i as nat), 3, outer as int);
            } else {
                lemma_grow(lat as int, lat_bits(i as nat), 3, outer as int);
                lemma_grow(lon as int, lon_bits(i as nat), 2, inner as int);
            }
            assert(chars@.take(i + 1).drop_last() =~= chars@.take(i as int));
        }
        if i % 2 == 0 {
            lat = lat * 4 + inner as u64;
            lon = lon * 8 + outer as u64;
        } else {
            lat = lat * 8 + outer as u64;
            lon = lon * 4 + inner as u64;
        }
        i += 1;
    }
    proof {
        assert(chars@.take(n as int) =~= chars@);
    }
    Cell { precision: n as u8, lat, lon }
}


/// `2^e` as a machine integer.
pub fn pow2_u64(e: u64) -> (r: u64)
    requires
        e <= 63,
    ensures
        r == pow2(e as nat),
{
    let mut r: u64 = 1;
    let mut k: u64 = 0;
    proof {
        lemma2_to64();
    }
    while k < e
        invariant
            k <= e <= 63,
            r == pow2(k as nat),
        decreases e - k,
    {
        proof {
            lemma_pow2_unfold((k + 1) as nat);
            lemma_pow2_fits((k + 1) as nat);
        }
        r = r * 2;
        k = k + 1;
    }
    r
}

/// Dropping `r + k` low bits and appending the next `k` bits gives `x` without its `r` low bits.
pub proof fn lemma_shift_step(x: int, r: nat, k: nat)
    requires
        0 <= x,
    ensures
        (x / (pow2(r + k) as int)) * (pow2(k) as int) + (x / (pow2(r) as int)) % (pow2(k) as int)
            == x / (pow2(r) as int),
{
    let pr = pow2(r) as int;
    let pk = pow2(k) as int;
    lemma_pow2_adds(r, k);
    lemma_pow2_pos(r);
    lemma_pow2_pos(k);
    lemma_div_denominator(x, pr, pk);
    lemma_fundamental_div_mod(x / pr, pk);
    assert(pow2(r + k) as int == pr * pk);
    assert((x / (pr * pk)) * pk == pk * ((x / pr) / pk)) by (nonlinear_arith)
        requires
            x / (pr * pk) == (x / pr) / pk,
    ;
}

/// The indices of the cell at precision `i` that contains `cell`.
pub open spec fn parent_indices(cell: Cell, i: nat) -> (int, int) {
    (
        cell.lat as int / (pow2((lat_bits(cell.precision as nat) - lat_bits(i)) as nat) as int),
        cell.lon as int / (pow2((lon_bits(cell.precision as nat) - lon_bits(i)) as nat) as int),
    )
}

/// The `i`-th digit of the geohash of `cell`.
fn digit_of_cell(cell: &Cell, i: u64) -> (d: u8)
    requires
        cell.wf(),
        i < cell.precision,
    ensures
        d < 32,
        push_digit(parent_indices(*cell, i as nat), i as int, d as int) == parent_indices(
            *cell,
            (i + 1) as nat,
        ),
{
    let p = cell.precision as u64;
    proof {
        lemma_bits_step(i as nat);
        lemma_bits_fit(p as nat);
        lemma2_to64();
        assert(lat_bits((i + 1) as nat) <= lat_bits(p as nat)) by {
            assert(5 * (i + 1) <= 5 * p);
        }
        assert(lon_bits((i + 1) as nat) <= lon_bits(p as nat)) by {
            assert(5 * (i + 1) + 1 <= 5 * p + 1);
        }
    }
    let r_lat: u64 = (5 * p) / 2 - (5 * (i + 1)) / 2;
    let r_lon: u64 = (5 * p + 1) / 2 - (5 * (i + 1) + 1) / 2;
    let m_lat = pow2_u64(r_lat);
    let m_lon = pow2_u64(r_lon);
    proof {
        lemma_pow2_pos(r_lat as nat);
        lemma_pow2_pos(r_lon as nat);
    }
    let q_lat = cell.lat / m_lat;
    let q_lon = cell.lon / m_lon;
    let (outer, inner) = if i % 2 == 0 {
        ((q_lon % 8) as u8, (q_lat % 4) as u8)
    } else {
        ((q_lat % 8) as u8, (q_lon % 4) as u8)
    };
    let d: u8 = (outer / 4) * 16 + (inner / 2) * 8 + (outer / 2 % 2) * 4 + (inner % 2) * 2 + outer
        % 2;
    proof {
        lemma_digit_bits(0, outer as int, inner as int);
        assert(d as int == interleave(outer as int, inner as int));
        if i % 2 == 0 {
            lemma_shift_step(cell.lat as int, r_lat as nat, 2);
            lemma_shift_step(cell.lon as int, r_lon as nat, 3);
        } else {
            lemma_shift_step(cell.lat as int, r_lat as nat, 3);
            lemma_shift_step(cell.lon as int, r_lon as nat, 2);
        }
    }
    d
}

/// The geohash that names a cell.
pub fn encode_cell(cell: &Cell) -> (s: String)
    requires
        cell.wf(),
    ensures
        s@.len() == cell.precision,
        is_geohash(s@),
        decode_seq(s@) == cell.indices(),
{
    let p = cell.precision as u64;
    let mut out = String::new();
    let mut i: u64 = 0;
    proof {
        lemma_bits_fit(p as nat);
        lemma_pow2_pos(lat_bits(p as nat));
        lemma_pow2_pos(lon_bits(p as nat));
        assert(out@ =~= Seq::<char>::empty());
        lemma_fundamental_div_mod_converse(cell.lat as int, pow2(lat_bits(p as nat)) as int, 0, cell.lat as int);
        lemma_fundamental_div_mod_converse(cell.lon as int, pow2(lon_bits(p as nat)) as int, 0, cell.lon as int);
    }
    while i < p
        invariant
            p == cell.precision,
            cell.wf(),
            i <= p,
            out@.len() == i,
            is_geohash(out@),
            decode_seq(out@) == parent_indices(*cell, i as nat),
        decreases p - i,
    {
        let d = digit_of_cell(cell, i);
        let c = base32_char(d);
        let ghost old_out = out@;
        push_char(&mut out, c);
        proof {
            lemma_base32_inverse(d as int, c);
            assert(out@.drop_last() =~= old_out);
            assert forall|j: int| 0 <= j < out@.len() implies #[trigger] base32_value(out@[j]) is Some by {
                if j < old_out.len() {
                    assert(out@[j] == old_out[j]);
                }
            }
            assert(digit(out@.last()) == d as int);
        }
        i = i + 1;
    }
    proof {
        lemma2_to64();
        assert(pow2((lat_bits(p as nat) - lat_bits(p as nat)) as nat) == 1);
        assert(pow2((lon_bits(p as nat) - lon_bits(p as nat)) as nat) == 1);
        assert(cell.lat as int / 1 == cell.lat as int);
        assert(cell.lon as int / 1 == cell.lon as int);
    }
    out
}

/// A geohash names a cell on the grid of its own precision.
pub proof fn lemma_decode_bounds(s: Seq<char>)
    requires
        is_geohash(s),
    ensures
        0 <= decode_seq(s).0 < pow2(lat_bits(s.len())),
        0 <= decode_seq(s).1 < pow2(lon_bits(s.len())),
    decreases s.len(),
{
    lemma2_to64();
    if s.len() > 0 {
        let n = (s.len() - 1) as nat;
        let prev = s.drop_last();
        assert(is_geohash(prev)) by {
            assert forall|j: int| 0 <= j < prev.len() implies #[trigger] base32_value(prev[j]) is Some by {
                assert(prev[j] == s[j]);
            }
        }
        lemma_decode_bounds(prev);
        let x = digit(s.last());
        assert(base32_value(s[s.len() - 1]) is Some);
        lemma_base32_inverse(0, s.last());
        lemma_digit_bits(x, 0, 0);
        lemma_bits_step(n);
        if n % 2 == 0 {
            lemma_grow(decode_seq(prev).0, lat_bits(n), 2, inner_bits(x));
            lemma_grow(decode_seq(prev).1, lon_bits(n), 3, outer_bits(x));
        } else {
            lemma_grow(decode_seq(prev).0, lat_bits(n), 3, outer_bits(x));
            lemma_grow(decode_seq(prev).1, lon_bits(n), 2, inner_bits(x));
        }
    }
}

/// Two geohashes of one length that name the same cell are the same string, so a
/// geohash is recovered exactly from its cell: `encode_cell(&decode_cell(s))` is `s`.
pub proof fn lemma_geohash_roundtrip(s: Seq<char>, t: Seq<char>)
    requires
        is_geohash(s),
        is_geohash(t),
        s.len() == t.len(),
        decode_seq(s) == decode_seq(t),
    ensures
        s == t,
    decreases s.len(),
{
    if s.len() > 0 {
        let n = s.len() - 1;
        let s0 = s.drop_last();
        let t0 = t.drop_last();
        assert(is_geohash(s0)) by {
            assert forall|j: int| 0 <= j < s0.len() implies #[trigger] base32_value(s0[j]) is Some by {
                assert(s0[j] == s[j]);
            }
        }
        assert(is_geohash(t0)) by {
            assert forall|j: int| 0 <= j < t0.len() implies #[trigger] base32_value(t0[j]) is Some by {
                assert(t0[j] == t[j]);
            }
        }
        assert(base32_value(s[n]) is Some);
        assert(base32_value(t[n]) is Some);
        let x = digit(s.last());
        let y = digit(t.last());
        lemma_base32_inverse(0, s.last());
        lemma_base32_inverse(0, t.last());
        lemma_digit_bits(x, 0, 0);
        lemma_digit_bits(y, 0, 0);
        let a = decode_seq(s0);
        let b = decode_seq(t0);
        if n % 2 == 0 {
            lemma_fundamental_div_mod_converse(decode_seq(s).0, 4, a.0, inner_bits(x));
            lemma_fundamental_div_mod_converse(decode_seq(s).0, 4, b.0, inner_bits(y));
            lemma_fundamental_div_mod_converse(decode_seq(s).1, 8, a.1, outer_bits(x));
            lemma_fundamental_div_mod_converse(decode_seq(s).1, 8, b.1, outer_bits(y));
        } else {
            lemma_fundamental_div_mod_converse(decode_seq(s).0, 8, a.0, outer_bits(x));
            lemma_fundamental_div_mod_converse(decode_seq(s).0, 8, b.0, outer_bits(y));
            lemma_fundamental_div_mod_converse(decode_seq(s).1, 4, a.1, inner_bits(x));
            lemma_fundamental_div_mod_converse(decode_seq(s).1, 4, b.1, inner_bits(y));
        }
        assert(x == y);
        lemma_geohash_roundtrip(s0, t0);
        assert(s.last() == t.last());
        assert(s =~= t) by {
            assert forall|j: int| 0 <= j < s.len() implies s[j] == t[j] by {
                if j < n {
                    assert(s[j] == s0[j]);
                    assert(t[j] == t0[j]);
                }
            }
        }
    }
}

/// Geohash prefixes nest: the first `k` characters of a geohash name the cell that
/// contains it at precision `k`, the cell whose indices are its own without the low bits
/// that the remaining characters add.
pub proof fn lemma_prefix_is_parent(s: Seq<char>, k: nat)
    requires
        is_geohash(s),
        k <= s.len(),
    ensures
        decode_seq(s.take(k as int)) == (
            decode_seq(s).0 / (pow2((lat_bits(s.len()) - lat_bits(k)) as nat) as int),
            decode_seq(s).1 / (pow2((lon_bits(s.len()) - lon_bits(k)) as nat) as int),
        ),
    decreases s.len() - k,
{
    lemma2_to64();
    if k == s.len() {
        assert(s.take(k as int) =~= s);
        assert(pow2(0) == 1);
        assert(decode_seq(s).0 / 1 == decode_seq(s).0);
        assert(decode_seq(s).1 / 1 == decode_seq(s).1);
    } else {
        let n = (s.len() - 1) as nat;
        let s0 = s.drop_last();
        assert(is_geohash(s0)) by {
            assert forall|j: int| 0 <= j < s0.len() implies #[trigger] base32_value(s0[j]) is Some by {
                assert(s0[j] == s[j]);
            }
        }
        lemma_prefix_is_parent(s0, k);
        assert(s0.take(k as int) =~= s.take(k as int));
        lemma_decode_bounds(s0);
        assert(base32_value(s[n as int]) is Some);
        let x = digit(s.last());
        lemma_base32_inverse(0, s.last());
        lemma_digit_bits(x, 0, 0);
        lemma_bits_step(n);
        assert(lat_bits(k) <= lat_bits(n) && lon_bits(k) <= lon_bits(n)) by {
            assert(5 * k <= 5 * n);
        }
        let ra = (lat_bits(n) - lat_bits(k)) as nat;
        let rb = (lon_bits(n) - lon_bits(k)) as nat;
        let p0 = decode_seq(s0);
        assert(decode_seq(s) == push_digit(p0, n as int, x));
        if n % 2 == 0 {
            assert(decode_seq(s).0 == p0.0 * (pow2(2) as int) + inner_bits(x));
            assert(decode_seq(s).1 == p0.1 * (pow2(3) as int) + outer_bits(x));
            lemma_parent_step(p0.0, ra, 2, inner_bits(x));
            lemma_parent_step(p0.1, rb, 3, outer_bits(x));
            assert(ra + 2 == (lat_bits(s.len()) - lat_bits(k)) as nat);
            assert(rb + 3 == (lon_bits(s.len()) - lon_bits(k)) as nat);
        } else {
            assert(decode_seq(s).0 == p0.0 * (pow2(3) as int) + outer_bits(x));
            assert(decode_seq(s).1 == p0.1 * (pow2(2) as int) + inner_bits(x));
            lemma_parent_step(p0.0, ra, 3, outer_bits(x));
            lemma_parent_step(p0.1, rb, 2, inner_bits(x));
            assert(ra + 3 == (lat_bits(s.len()) - lat_bits(k)) as nat);
            assert(rb + 2 == (lon_bits(s.len()) - lon_bits(k)) as nat);
        }
    }
}

/// `(x * 2^k + c) / 2^(r + k) == x / 2^r` when `c < 2^k`.
pub proof fn lemma_parent_step(x: int, r: nat, k: nat, c: int)
    requires
        0 <= x,
        0 <= c < pow2(k),
    ensures
        (x * (pow2(k) as int) + c) / (pow2(r + k) as int) == x / (pow2(r) as int),
{
    let pr = pow2(r) as int;
    let pk = pow2(k) as int;
    lemma_pow2_adds(r, k);
    lemma_pow2_pos(r);
    lemma_pow2_pos(k);
    assert(0 <= x * pk) by (nonlinear_arith)
        requires
            0 <= x,
            0 < pk,
    ;
    lemma_div_denominator(x * pk + c, pk, pr);
    lemma_fundamental_div_mod_converse(x * pk + c, pk, x, c);
    assert(pk * pr == pow2(r + k) as int) by (nonlinear_arith)
        requires
            pow2(r + k) as int == pr * pk,
    ;
}


/// The eight compass directions around a cell.
#[derive(Clone, Copy, Debug, PartialEq, Eq, Structural)]
pub enum Direction {
    North,
    NorthEast,
    East,
    SouthEast,
    South,
    SouthWest,
    West,
    NorthWest,
}

impl Direction {
    /// Rows moved north (+1) or south (-1).
    pub open spec fn lat_step(self) -> int {
        match self {
            Direction::North | Direction::NorthEast | Direction::NorthWest => 1,
            Direction::South | Direction::SouthEast | Direction::SouthWest => -1,
            _ => 0,
        }
    }

    /// Columns moved east (+1) or west (-1).
    pub open spec fn lon_step(self) -> int {
        match self {
            Direction::East | Direction::NorthEast | Direction::SouthEast => 1,
            Direction::West | Direction::NorthWest | Direction::SouthWest => -1,
            _ => 0,
        }
    }

    /// The direction that undoes this one.
    pub open spec fn opposite(self) -> Direction {
        match self {
            Direction::North => Direction::South,
            Direction::NorthEast => Direction::SouthWest,
            Direction::East => Direction::West,
            Direction::SouthEast => Direction::NorthWest,
            Direction::South => Direction::North,
            Direction::SouthWest => Direction::NorthEast,
            Direction::West => Direction::East,
            Direction::NorthWest => Direction::SouthEast,
        }
    }

    pub open spec fn spec_name(self) -> Seq<char> {
        match self {
            Direction::North => seq!['n'],
            Direction::NorthEast => seq!['n', 'e'],
            Direction::East => seq!['e'],
            Direction::SouthEast => seq!['s', 'e'],
            Direction::South => seq!['s'],
            Direction::SouthWest => seq!['s', 'w'],
            Direction::West => seq!['w'],
            Direction::NorthWest => seq!['n', 'w'],
        }
    }

    /// The short name of the direction: `n`, `ne`, `e`, `se`, `s`, `sw`, `w` or `nw`.
    pub fn name(&self) -> (r: &'static str)
        ensures
            r@ == self.spec_name(),
    {
        proof {
            reveal_strlit("n");
            reveal_strlit("ne");
            reveal_strlit("e");
            reveal_strlit("se");
            reveal_strlit("s");
            reveal_strlit("sw");
            reveal_strlit("w");
            reveal_strlit("nw");
        }
        match self {
            Direction::North => "n",
            Direction::NorthEast => "ne",
            Direction::East => "e",
            Direction::SouthEast => "se",
            Direction::South => "s",
            Direction::SouthWest => "sw",
            Direction::West => "w",
            Direction::NorthWest => "nw",
        }
    }
}

/// The directions in the order in which neighbors are listed.
pub open spec fn compass() -> Seq<Direction> {
    seq![
        Direction::North,
        Direction::NorthEast,
        Direction::East,
        Direction::SouthEast,
        Direction::South,
        Direction::SouthWest,
        Direction::West,
        Direction::NorthWest,
    ]
}

/// The cell next to `cell` (a cell of `p` characters) in direction `d`: rows stop at the
/// poles, columns wrap around the antimeridian.
pub open spec fn shift(cell: (int, int), p: nat, d: Direction) -> Option<(int, int)> {
    let lat = cell.0 + d.lat_step();
    if 0 <= lat < pow2(lat_bits(p)) {
        Some((lat, (cell.1 + d.lon_step()) % (pow2(lon_bits(p)) as int)))
    } else {
        None
    }
}

/// The neighbor of geohash `s` in direction `d`, if the grid has one.
pub open spec fn neighbor_of(s: Seq<char>, d: Direction) -> Option<(int, int)> {
    shift(decode_seq(s), s.len(), d)
}

/// The directions among `dirs`, in order, in which `s` has a neighbor.
pub open spec fn present_directions(s: Seq<char>, dirs: Seq<Direction>) -> Seq<Direction>
    decreases dirs.len(),
{
    if dirs.len() == 0 {
        Seq::empty()
    } else {
        let rest = present_directions(s, dirs.drop_last());
        if neighbor_of(s, dirs.last()) is Some {
            rest.push(dirs.last())
        } else {
            rest
        }
    }
}

/// One neighbor of a geohash cell.
#[derive(Debug)]
pub struct Neighbor {
    pub direction: Direction,
    pub geohash: String,
}

/// The list of directions, in compass order.
pub fn compass_directions() -> (r: Vec<Direction>)
    ensures
        r@ == compass(),
{
    let r = vec![
        Direction::North,
        Direction::NorthEast,
        Direction::East,
        Direction::SouthEast,
        Direction::South,
        Direction::SouthWest,
        Direction::West,
        Direction::NorthWest,
    ];
    assert(r@ =~= compass());
    r
}

/// The neighboring cells of a geohash, as geohashes of the same precision, in the order
/// n, ne, e, se, s, sw, w, nw.  A cell in the top or bottom row has no neighbor beyond
/// the pole; east and west wrap around the antimeridian.
pub fn neighbors(geohash: &str) -> (r: Vec<Neighbor>)
    requires
        is_geohash(geohash@),
    ensures
        r@.len() == present_directions(geohash@, compass()).len(),
        forall|i: int|
            #![trigger r@[i]]
            0 <= i < r@.len() ==> {
                &&& r@[i].direction == present_directions(geohash@, compass())[i]
                &&& r@[i].geohash@.len() == geohash@.len()
                &&& is_geohash(r@[i].geohash@)
                &&& Some(decode_seq(r@[i].geohash@)) == neighbor_of(geohash@, r@[i].direction)
            },
{
    let dirs = compass_directions();
    let mut out: Vec<Neighbor> = Vec::new();
    let mut j: usize = 0;
    while j < dirs.len()
        invariant
            dirs@ == compass(),
            is_geohash(geohash@),
            j <= dirs@.len(),
            out@.len() == present_directions(geohash@, dirs@.take(j as int)).len(),
            forall|i: int|
                #![trigger out@[i]]
                0 <= i < out@.len() ==> {
                    &&& out@[i].direction == present_directions(geohash@, dirs@.take(j as int))[i]
                    &&& out@[i].geohash@.len() == geohash@.len()
                    &&& is_geohash(out@[i].geohash@)
                    &&& Some(decode_seq(out@[i].geohash@)) == neighbor_of(geohash@, out@[i].direction)
                },
        decreases dirs@.len() - j,
    {
        let d = dirs[j];
        let ghost prev = out@;
        assert(dirs@.take(j + 1).drop_last() =~= dirs@.take(j as int));
        match neighbor_geohash(geohash, d) {
            Some(h) => {
                out.push(Neighbor { direction: d, geohash: h });
            },
            None => {},
        }
        j += 1;
    }
    assert(dirs@.take(8) =~= dirs@);
    out
}

/// The coordinate of a cell on one axis: latitude when `lat`, else longitude.
pub open spec fn axis_coord(cell: (int, int), lat: bool) -> int {
    if lat {
        cell.0
    } else {
        cell.1
    }
}

/// The number of bits of one axis in a geohash of `p` characters.
pub open spec fn axis_bits(p: nat, lat: bool) -> nat {
    if lat {
        lat_bits(p)
    } else {
        lon_bits(p)
    }
}

/// Whether the `i`-th digit carries its inner (two) bits on the axis.
pub open spec fn inner_axis(i: int, lat: bool) -> bool {
    lat == (i % 2 == 0)
}

/// The bits of digit `d`, the `i`-th character, on one axis.
pub open spec fn axis_part(i: int, d: int, lat: bool) -> int {
    if inner_axis(i, lat) {
        inner_bits(d)
    } else {
        outer_bits(d)
    }
}

/// How many values the `i`-th digit holds on one axis.
pub open spec fn axis_base(i: int, lat: bool) -> int {
    if inner_axis(i, lat) {
        4
    } else {
        8
    }
}

/// Digit `d`, the `i`-th character, with its bits on one axis replaced by `v`.
pub open spec fn with_axis_part(i: int, d: int, lat: bool, v: int) -> int {
    if inner_axis(i, lat) {
        interleave(outer_bits(d), v)
    } else {
        interleave(v, inner_bits(d))
    }
}

/// Moves a geohash one cell along one axis (up: toward the north or east), digit by digit
/// from the last one with a carry.  The flag says whether the carry ran out of the first
/// digit, that is, whether the move left the grid.
pub open spec fn step_seq(s: Seq<char>, lat: bool, up: bool) -> (Seq<char>, bool)
    decreases s.len(),
{
    if s.len() == 0 {
        (s, true)
    } else {
        let i = s.len() - 1;
        let d = digit(s.last());
        let p = axis_part(i, d, lat);
        let b = axis_base(i, lat);
        if up && p + 1 < b {
            (s.drop_last().push(base32_char_of(with_axis_part(i, d, lat, p + 1))), false)
        } else if !up && p > 0 {
            (s.drop_last().push(base32_char_of(with_axis_part(i, d, lat, p - 1))), false)
        } else {
            let r = step_seq(s.drop_last(), lat, up);
            (r.0.push(base32_char_of(with_axis_part(i, d, lat, if up { 0 } else { b - 1 }))), r.1)
        }
    }
}

/// A digit with one axis replaced keeps the other axis and reads back the new part.
pub proof fn lemma_axis_digit(i: int, d: int, lat: bool, v: int)
    requires
        0 <= d < 32,
        0 <= v < axis_base(i, lat),
    ensures
        0 <= with_axis_part(i, d, lat, v) < 32,
        axis_part(i, with_axis_part(i, d, lat, v), lat) == v,
        axis_part(i, with_axis_part(i, d, lat, v), !lat) == axis_part(i, d, !lat),
        0 <= axis_part(i, d, lat) < axis_base(i, lat),
        axis_base(i, !lat) * axis_base(i, lat) == 32,
{
    lemma_digit_bits(d, 0, 0);
    if inner_axis(i, lat) {
        lemma_digit_bits(0, outer_bits(d), v);
    } else {
        lemma_digit_bits(0, v, inner_bits(d));
    }
}

/// Appending a digit scales each axis by its base and adds the digit's part.
pub proof fn lemma_push_axis(cell: (int, int), i: int, d: int, lat: bool)
    ensures
        axis_coord(push_digit(cell, i, d), lat) == axis_coord(cell, lat) * axis_base(i, lat) + axis_part(i, d, lat),
{
}

/// The grid of `p + 1` characters has, on each axis, the base of the last digit times
/// as many rows or columns as the grid of `p` characters.
pub proof fn lemma_axis_grow(p: nat, lat: bool)
    ensures
        pow2(axis_bits(p + 1, lat)) == pow2(axis_bits(p, lat)) * axis_base(p as int, lat),
{
    lemma_bits_step(p);
    lemma2_to64();
    if inner_axis(p as int, lat) {
        lemma_pow2_adds(axis_bits(p, lat), 2);
    } else {
        lemma_pow2_adds(axis_bits(p, lat), 3);
    }
}

/// `(y * k + c) % (m * k) == (y % m) * k + c`, and `y * k + c` lies in `[0, m * k)`
/// exactly when `y` lies in `[0, m)`.
pub proof fn lemma_mod_scaled(y: int, m: int, k: int, c: int)
    requires
        m > 0,
        k > 0,
        0 <= c < k,
    ensures
        (y * k + c) % (m * k) == (y % m) * k + c,
        (0 <= y * k + c < m * k) <==> (0 <= y < m),
{
    let q = y / m;
    let r = y % m;
    lemma_fundamental_div_mod(y, m);
    lemma_mod_bound(y, m);
    assert(y * k + c == (m * k) * q + (r * k + c)) by (nonlinear_arith)
        requires
            y == m * q + r,
    ;
    assert(0 <= r * k + c < m * k) by (nonlinear_arith)
        requires
            0 <= r < m,
            0 <= c < k,
            k > 0,
    ;
    assert(m * k > 0 && y * k + c == q * (m * k) + (r * k + c)) by (nonlinear_arith)
        requires
            m > 0,
            k > 0,
            y * k + c == (m * k) * q + (r * k + c),
    ;
    lemma_fundamental_div_mod_converse(y * k + c, m * k, q, r * k + c);
    assert((0 <= y * k + c < m * k) <==> (0 <= y < m)) by (nonlinear_arith)
        requires
            m > 0,
            k > 0,
            0 <= c < k,
    ;
}

/// The value a digit takes on the moved axis, and whether the move carries past it.
pub open spec fn moved_part(p: int, b: int, up: bool) -> (int, bool) {
    if up && p + 1 < b {
        (p + 1, false)
    } else if !up && p > 0 {
        (p - 1, false)
    } else if up {
        (0, true)
    } else {
        (b - 1, true)
    }
}

/// The arithmetic of one digit of a move: a coordinate `xp * b + p` moved by one is the
/// moved prefix coordinate `rp` scaled, plus the moved part, modulo the grid size.
proof fn lemma_step_arith(xp: int, mp: int, b: int, p: int, up: bool, rp: int)
    requires
        mp > 0,
        b > 0,
        0 <= xp < mp,
        0 <= p < b,
        !moved_part(p, b, up).1 ==> rp == xp,
        moved_part(p, b, up).1 ==> rp == (xp + if up { 1int } else { -1int }) % mp,
    ensures
        ({
            let x = xp * b + p + if up { 1int } else { -1int };
            let v = moved_part(p, b, up).0;
            &&& x % (mp * b) == rp * b + v
            &&& moved_part(p, b, up).1 ==> ((0 <= x < mp * b) <==> (0 <= xp + (if up { 1int } else { -1int }) < mp))
            &&& !moved_part(p, b, up).1 ==> 0 <= x < mp * b
        }),
{
    let v = moved_part(p, b, up).0;
    let x = xp * b + p + if up { 1int } else { -1int };
    if !moved_part(p, b, up).1 {
        lemma_mod_scaled(xp, mp, b, v);
        lemma_fundamental_div_mod_converse(xp, mp, 0, xp);
    } else if up {
        lemma_mod_scaled(xp + 1, mp, b, 0);
        assert(x == (xp + 1) * b + 0) by (nonlinear_arith)
            requires
                x == xp * b + p + 1,
                p + 1 == b,
        ;
    } else {
        lemma_mod_scaled(xp - 1, mp, b, b - 1);
        assert(x == (xp - 1) * b + (b - 1)) by (nonlinear_arith)
            requires
                x == xp * b + p - 1,
                p == 0,
        ;
    }
}

/// Appending a geohash digit to a geohash.
proof fn lemma_push_geohash(prefix: Seq<char>, c: char)
    requires
        is_geohash(prefix),
        base32_value(c) is Some,
    ensures
        is_geohash(prefix.push(c)),
        prefix.push(c).drop_last() == prefix,
        decode_seq(prefix.push(c)) == push_digit(decode_seq(prefix), prefix.len() as int, digit(c)),
{
    let t = prefix.push(c);
    assert(t.drop_last() =~= prefix);
    assert forall|j: int| 0 <= j < t.len() implies #[trigger] base32_value(t[j]) is Some by {
        if j < prefix.len() {
            assert(t[j] == prefix[j]);
        }
    }
}

/// A geohash without its last digit is a geohash.
proof fn lemma_drop_geohash(s: Seq<char>)
    requires
        is_geohash(s),
        s.len() > 0,
    ensures
        is_geohash(s.drop_last()),
        base32_value(s.last()) is Some,
        0 <= digit(s.last()) < 32,
{
    let pre = s.drop_last();
    assert forall|j: int| 0 <= j < pre.len() implies #[trigger] base32_value(pre[j]) is Some by {
        assert(pre[j] == s[j]);
    }
    assert(base32_value(s[s.len() - 1]) is Some);
    lemma_base32_inverse(0, s.last());
}

/// Moving one cell along an axis: the new coordinate is the old one plus or minus one,
/// modulo the size of the grid; the carry runs out exactly when the move leaves the grid;
/// the other axis does not move.
#[verifier::rlimit(60)]
#[verifier::spinoff_prover]
pub proof fn lemma_step_seq(s: Seq<char>, lat: bool, up: bool)
    requires
        is_geohash(s),
    ensures
        ({
            let r = step_seq(s, lat, up);
            let x = axis_coord(decode_seq(s), lat) + if up { 1int } else { -1int };
            let m = pow2(axis_bits(s.len(), lat)) as int;
            &&& r.0.len() == s.len()
            &&& is_geohash(r.0)
            &&& axis_coord(decode_seq(r.0), lat) == x % m
            &&& axis_coord(decode_seq(r.0), !lat) == axis_coord(decode_seq(s), !lat)
            &&& r.1 <==> !(0 <= x < m)
        }),
    decreases s.len(),
{
    let r = step_seq(s, lat, up);
    if s.len() == 0 {
        lemma2_to64();
        assert(pow2(axis_bits(0, lat)) == 1);
    } else {
        let i = s.len() - 1;
        let n = i as nat;
        let pre = s.drop_last();
        lemma_drop_geohash(s);
        let d = digit(s.last());
        lemma_axis_digit(i, d, lat, 0);
        let p = axis_part(i, d, lat);
        let b = axis_base(i, lat);
        let mv = moved_part(p, b, up);
        let v = mv.0;
        lemma_axis_digit(i, d, lat, v);
        let nd = with_axis_part(i, d, lat, v);
        lemma_base32_inverse(nd, ' ');
        let c = base32_char_of(nd);
        let prefix: Seq<char> = if !mv.1 {
            pre
        } else {
            step_seq(pre, lat, up).0
        };
        if mv.1 {
            lemma_step_seq(pre, lat, up);
        }
        assert(r.0 == prefix.push(c) && r.1 == (mv.1 && step_seq(pre, lat, up).1));
        lemma_push_geohash(prefix, c);
        lemma_decode_bounds(pre);
        lemma_push_axis(decode_seq(pre), i, d, lat);
        lemma_push_axis(decode_seq(pre), i, d, !lat);
        lemma_push_axis(decode_seq(prefix), i, nd, lat);
        lemma_push_axis(decode_seq(prefix), i, nd, !lat);
        lemma_axis_grow(n, lat);
        let xp = axis_coord(decode_seq(pre), lat);
        let mp = pow2(axis_bits(n, lat)) as int;
        lemma_pow2_pos(axis_bits(n, lat));
        assert(0 <= xp < mp);
        lemma_step_arith(xp, mp, b, p, up, axis_coord(decode_seq(prefix), lat));
    }
}

/// The outer bits of a digit.
fn outer_of(d: u8) -> (r: u8)
    requires
        d < 32,
    ensures
        r as int == outer_bits(d as int),
        r < 8,
{
    proof {
        lemma_digit_bits(d as int, 0, 0);
    }
    (d / 16 % 2) * 4 + (d / 4 % 2) * 2 + d % 2
}

/// The inner bits of a digit.
fn inner_of(d: u8) -> (r: u8)
    requires
        d < 32,
    ensures
        r as int == inner_bits(d as int),
        r < 4,
{
    proof {
        lemma_digit_bits(d as int, 0, 0);
    }
    (d / 8 % 2) * 2 + d / 2 % 2
}

/// The digit with outer bits `a` and inner bits `b`.
fn interleave_of(a: u8, b: u8) -> (r: u8)
    requires
        a < 8,
        b < 4,
    ensures
        r as int == interleave(a as int, b as int),
        r < 32,
{
    proof {
        lemma_digit_bits(0, a as int, b as int);
    }
    (a / 4) * 16 + (b / 2) * 8 + (a / 2 % 2) * 4 + (b % 2) * 2 + a % 2
}

/// The digit `d`, the `i`-th character, moved by one on an axis, and whether the move
/// carries into the previous digit.
fn moved_digit(d: u8, i: usize, lat: bool, up: bool) -> (r: (u8, bool))
    requires
        d < 32,
    ensures
        r.0 < 32,
        r.0 as int == with_axis_part(i as int, d as int, lat, moved_part(axis_part(i as int, d as int, lat), axis_base(i as int, lat), up).0),
        r.1 == moved_part(axis_part(i as int, d as int, lat), axis_base(i as int, lat), up).1,
{
    let inner = lat == (i % 2 == 0);
    let outer_d = outer_of(d);
    let inner_d = inner_of(d);
    let p: u8 = if inner { inner_d } else { outer_d };
    let b: u8 = if inner { 4 } else { 8 };
    assert(p as int == axis_part(i as int, d as int, lat));
    assert(b as int == axis_base(i as int, lat));
    let (nv, carry): (u8, bool) = if up && p + 1 < b {
        (p + 1, false)
    } else if !up && p > 0 {
        (p - 1, false)
    } else if up {
        (0, true)
    } else {
        (b - 1, true)
    };
    assert((nv as int, carry) == moved_part(p as int, b as int, up));
    let nd: u8 = if inner {
        interleave_of(outer_d, nv)
    } else {
        interleave_of(nv, inner_d)
    };
    (nd, carry)
}

/// The first `k` characters of `v`.
fn copy_prefix(v: &Vec<char>, k: usize) -> (out: Vec<char>)
    requires
        k <= v@.len(),
    ensures
        out@ == v@.take(k as int),
{
    let mut out: Vec<char> = Vec::new();
    let mut j: usize = 0;
    while j < k
        invariant
            j <= k,
            k <= v@.len(),
            out@ == v@.take(j as int),
        decreases k - j,
    {
        out.push(v[j]);
        j += 1;
        assert(out@ =~= v@.take(j as int));
    }
    out
}

/// The digits `v[..n]` moved one cell along an axis (see `step_seq`).
fn step_digits(v: &Vec<char>, n: usize, lat: bool, up: bool) -> (r: (Vec<char>, bool))
    requires
        n <= v@.len(),
        is_geohash(v@),
    ensures
        (r.0@, r.1) == step_seq(v@.take(n as int), lat, up),
    decreases n,
{
    let ghost s = v@.take(n as int);
    if n == 0 {
        let e: Vec<char> = Vec::new();
        assert(e@ =~= s);
        return (e, true);
    }
    let i = n - 1;
    assert(base32_value(v@[i as int]) is Some);
    assert(s.last() == v@[i as int]);
    assert(s.drop_last() =~= v@.take(i as int));
    let d = base32_inv(v[i]).unwrap();
    proof {
        lemma_base32_inverse(0, v@[i as int]);
    }
    let (nd, carry) = moved_digit(d, i, lat, up);
    let c = base32_char(nd);
    if !carry {
        let mut out = copy_prefix(v, i);
        out.push(c);
        (out, false)
    } else {
        let (mut out, k) = step_digits(v, i, lat, up);
        out.push(c);
        (out, k)
    }
}

/// The geohash of the neighbor of `geohash` in direction `d`, if the grid has one.
/// Works on any length: the move is made digit by digit with a carry.
pub fn neighbor_geohash(geohash: &str, d: Direction) -> (r: Option<String>)
    requires
        is_geohash(geohash@),
    ensures
        r is None <==> neighbor_of(geohash@, d) is None,
        r matches Some(h) ==> {
            &&& h@.len() == geohash@.len()
            &&& is_geohash(h@)
            &&& Some(decode_seq(h@)) == neighbor_of(geohash@, d)
        },
{
    let v = chars_of(geohash);
    let n = v.len();
    let ghost s = geohash@;
    proof {
        assert(v@.take(n as int) =~= s);
        lemma_decode_bounds(s);
        lemma_pow2_pos(lon_bits(s.len()));
    }
    let lat_up = match d {
        Direction::North | Direction::NorthEast | Direction::NorthWest => true,
        _ => false,
    };
    let lat_down = match d {
        Direction::South | Direction::SouthEast | Direction::SouthWest => true,
        _ => false,
    };
    let lon_up = match d {
        Direction::East | Direction::NorthEast | Direction::SouthEast => true,
        _ => false,
    };
    let lon_down = match d {
        Direction::West | Direction::NorthWest | Direction::SouthWest => true,
        _ => false,
    };
    let t = if lat_up || lat_down {
        let (t, out) = step_digits(&v, n, true, lat_up);
        proof {
            lemma_step_seq(s, true, lat_up);
        }
        if out {
            return None;
        }
        t
    } else {
        v
    };
    let ghost lat_new = decode_seq(t@).0;
    assert(lat_new == decode_seq(s).0 + d.lat_step()) by {
        if lat_up || lat_down {
            let x = decode_seq(s).0 + d.lat_step();
            lemma_fundamental_div_mod_converse(x, pow2(lat_bits(s.len())) as int, 0, x);
        }
    }
    assert(0 <= lat_new < pow2(lat_bits(s.len())));
    let u = if lon_up || lon_down {
        let (u, _) = step_digits(&t, n, false, lon_up);
        proof {
            assert(t@.take(n as int) =~= t@);
            lemma_step_seq(t@, false, lon_up);
        }
        u
    } else {
        proof {
            let y = decode_seq(s).1;
            lemma_fundamental_div_mod_converse(y, pow2(lon_bits(s.len())) as int, 0, y);
        }
        t
    };
    Some(string_of(&u))
}

/// Neighbors undo each other: if `t` is the neighbor of `s` in direction `d`, then `s` is
/// the neighbor of `t` in the opposite direction.
pub proof fn lemma_neighbor_symmetric(s: Seq<char>, t: Seq<char>, d: Direction)
    requires
        is_geohash(s),
        is_geohash(t),
        s.len() == t.len(),
        neighbor_of(s, d) == Some(decode_seq(t)),
    ensures
        neighbor_of(t, d.opposite()) == Some(decode_seq(s)),
{
    lemma_decode_bounds(s);
    lemma_decode_bounds(t);
    lemma_pow2_pos(lon_bits(s.len()));
    let m = pow2(lon_bits(s.len())) as int;
    let x = decode_seq(s).1;
    let y = decode_seq(t).1;
    if d.lon_step() == 1 {
        if x + 1 == m {
            lemma_fundamental_div_mod_converse(x + 1, m, 1, 0);
            lemma_fundamental_div_mod_converse(y - 1, m, -1, x);
        } else {
            lemma_fundamental_div_mod_converse(x + 1, m, 0, x + 1);
            lemma_fundamental_div_mod_converse(y - 1, m, 0, x);
        }
    } else if d.lon_step() == -1 {
        if x == 0 {
            lemma_fundamental_div_mod_converse(x - 1, m, -1, m - 1);
            lemma_fundamental_div_mod_converse(y + 1, m, 1, x);
        } else {
            lemma_fundamental_div_mod_converse(x - 1, m, 0, x - 1);
            lemma_fundamental_div_mod_converse(y + 1, m, 0, x);
        }
    } else {
        lemma_fundamental_div_mod_converse(x, m, 0, x);
        lemma_fundamental_div_mod_converse(y, m, 0, x);
    }
}


/// Approximate width and height of a cell at the equator, in millimetres, for the
/// precisions 1 to 12 (the width shrinks with the cosine of the latitude).
pub open spec fn cell_dims_spec(p: int) -> Option<(nat, nat)> {
    if p == 1 {
        Some((5_009_400_000nat, 4_992_600_000nat))
    } else if p == 2 {
        Some((1_252_300_000nat, 624_100_000nat))
    } else if p == 3 {
        Some((156_500_000nat, 156_000_000nat))
    } else if p == 4 {
        Some((39_100_000nat, 19_500_000nat))
    } else if p == 5 {
        Some((4_900_000nat, 4_900_000nat))
    } else if p == 6 {
        Some((1_200_000nat, 610_000nat))
    } else if p == 7 {
        Some((153_000nat, 153_000nat))
    } else if p == 8 {
        Some((38_000nat, 19_000nat))
    } else if p == 9 {
        Some((4_800nat, 4_800nat))
    } else if p == 10 {
        Some((1_200nat, 600nat))
    } else if p == 11 {
        Some((150nat, 150nat))
    } else if p == 12 {
        Some((37nat, 19nat))
    } else {
        None
    }
}

/// Width and height of a cell at the equator, in millimetres, for precisions 1 to 12.
pub fn cell_dims_mm(precision: u8) -> (r: Option<(u64, u64)>)
    ensures
        r matches Some((w, h)) ==> cell_dims_spec(precision as int) == Some((w as nat, h as nat)),
        r is None ==> cell_dims_spec(precision as int) is None,
{
    match precision {
        1 => Some((5_009_400_000, 4_992_600_000)),
        2 => Some((1_252_300_000, 624_100_000)),
        3 => Some((156_500_000, 156_000_000)),
        4 => Some((39_100_000, 19_500_000)),
        5 => Some((4_900_000, 4_900_000)),
        6 => Some((1_200_000, 610_000)),
        7 => Some((153_000, 153_000)),
        8 => Some((38_000, 19_000)),
        9 => Some((4_800, 4_800)),
        10 => Some((1_200, 600)),
        11 => Some((150, 150)),
        12 => Some((37, 19)),
        _ => None,
    }
}

/// The larger cell dimension in millimetres; precisions without a table entry count as
/// the coarsest cell.
pub open spec fn cell_max_dim_spec(p: int) -> nat {
    match cell_dims_spec(p) {
        Some((w, h)) => if w >= h { w } else { h },
        None => 5_009_400_000,
    }
}

/// The larger of the two cell dimensions at the equator, in millimetres.
pub fn cell_max_dim_mm(precision: u8) -> (r: u64)
    ensures
        r == cell_max_dim_spec(precision as int),
{
    match cell_dims_mm(precision) {
        Some((w, h)) => if w >= h { w } else { h },
        None => 5_009_400_000,
    }
}

/// A length given in millimetres, written in metres the shortest way: no fraction for
/// whole metres, otherwise one, two or three decimals without trailing zeros.
pub open spec fn meters_text(mm: nat) -> Seq<char> {
    let whole = decimal(mm / 1000);
    let frac = mm % 1000;
    if frac == 0 {
        whole
    } else if frac % 100 == 0 {
        whole + seq!['.', digit_char((frac / 100) as int)]
    } else if frac % 10 == 0 {
        whole + seq!['.'] + zero_padded(frac / 10, 2)
    } else {
        whole + seq!['.'] + zero_padded(frac, 3)
    }
}

/// Appends a length in millimetres written in metres (see `meters_text`).
pub fn push_meters(s: &mut String, mm: u64)
    ensures
        final(s)@ == old(s)@ + meters_text(mm as nat),
{
    let ghost start = s@;
    push_decimal(s, mm / 1000);
    let frac = mm % 1000;
    if frac == 0 {
    } else if frac % 100 == 0 {
        push_char(s, '.');
        push_char(s, digit_to_char(frac / 100));
        assert(s@ =~= start + meters_text(mm as nat));
    } else if frac % 10 == 0 {
        push_char(s, '.');
        push_zero_padded(s, frac / 10, 2);
        assert(s@ =~= start + meters_text(mm as nat));
    } else {
        push_char(s, '.');
        push_zero_padded(s, frac, 3);
        assert(s@ =~= start + meters_text(mm as nat));
    }
}

/// Human-readable size of a cell: `~{w}km x {h}km` (whole kilometres, rounded down)
/// when the cell is at least a kilometre wide, `~{w}m x {h}m` otherwise, and `unknown`
/// for a precision outside 1 to 12.
pub open spec fn cell_size_text(p: int) -> Seq<char> {
    match cell_dims_spec(p) {
        None => seq!['u', 'n', 'k', 'n', 'o', 'w', 'n'],
        Some((w, h)) => if w >= 1_000_000 {
            seq!['~'] + decimal(w / 1_000_000) + seq!['k', 'm', ' ', 'x', ' '] + decimal(h / 1_000_000)
                + seq!['k', 'm']
        } else {
            seq!['~'] + meters_text(w) + seq!['m', ' ', 'x', ' '] + meters_text(h) + seq!['m']
        },
    }
}

/// Human-readable size of a cell at the given precision.
pub fn cell_size_description(precision: u8) -> (r: String)
    ensures
        r@ == cell_size_text(precision as int),
{
    let mut r = String::new();
    proof {
        reveal_strlit("unknown");
        reveal_strlit("km x ");
        reveal_strlit("km");
        reveal_strlit("m x ");
    }
    match cell_dims_mm(precision) {
        None => {
            push_str(&mut r, "unknown");
            assert(r@ =~= cell_size_text(precision as int));
        },
        Some((w, h)) => {
            push_char(&mut r, '~');
            if w >= 1_000_000 {
                push_decimal(&mut r, w / 1_000_000);
                push_str(&mut r, "km x ");
                push_decimal(&mut r, h / 1_000_000);
                push_str(&mut r, "km");
            } else {
                push_meters(&mut r, w);
                push_str(&mut r, "m x ");
                push_meters(&mut r, h);
                push_char(&mut r, 'm');
            }
            assert(r@ =~= cell_size_text(precision as int));
        },
    }
    r
}


/// The geohash of `p` characters that names `cell`.
pub open spec fn geohash_at(cell: (int, int), p: nat) -> Seq<char> {
    choose|t: Seq<char>| is_geohash(t) && t.len() == p && decode_seq(t) == cell
}

/// A geohash is the geohash of its own cell.
pub proof fn lemma_geohash_at(t: Seq<char>)
    requires
        is_geohash(t),
    ensures
        geohash_at(decode_seq(t), t.len()) == t,
{
    let cell = decode_seq(t);
    let p = t.len();
    assert(exists|u: Seq<char>| is_geohash(u) && u.len() == p && decode_seq(u) == cell);
    let u = geohash_at(cell, p);
    lemma_geohash_roundtrip(u, t);
}

/// `s` has a neighbor in the listed direction `d` exactly when `d` is in `dirs` and the
/// grid has a cell there.
pub proof fn lemma_present_directions(s: Seq<char>, dirs: Seq<Direction>, d: Direction)
    ensures
        present_directions(s, dirs).contains(d) <==> (dirs.contains(d) && neighbor_of(s, d) is Some),
    decreases dirs.len(),
{
    if dirs.len() > 0 {
        let init = dirs.drop_last();
        lemma_present_directions(s, init, d);
        let rest = present_directions(s, init);
        if dirs.contains(d) && d != dirs.last() {
            let k = choose|k: int| 0 <= k < dirs.len() && dirs[k] == d;
            assert(init[k] == d);
        }
        if init.contains(d) {
            let k = choose|k: int| 0 <= k < init.len() && init[k] == d;
            assert(dirs[k] == d);
        }
        assert(dirs[dirs.len() - 1] == dirs.last());
        if neighbor_of(s, dirs.last()) is Some {
            assert(rest.push(dirs.last())[rest.len() as int] == dirs.last());
            if rest.contains(d) {
                let k = choose|k: int| 0 <= k < rest.len() && rest[k] == d;
                assert(rest.push(dirs.last())[k] == d);
            }
            if rest.push(dirs.last()).contains(d) && d != dirs.last() {
                let k = choose|k: int| 0 <= k < rest.len() + 1 && rest.push(dirs.last())[k] == d;
                assert(rest[k] == d);
            }
        }
    }
}

/// Every direction is on the compass.
pub proof fn lemma_compass_contains(d: Direction)
    ensures
        compass().contains(d),
{
    let c = compass();
    match d {
        Direction::North => assert(c[0] == d),
        Direction::NorthEast => assert(c[1] == d),
        Direction::East => assert(c[2] == d),
        Direction::SouthEast => assert(c[3] == d),
        Direction::South => assert(c[4] == d),
        Direction::SouthWest => assert(c[5] == d),
        Direction::West => assert(c[6] == d),
        Direction::NorthWest => assert(c[7] == d),
    }
}

/// The geohash of the neighbor in direction `d`, looked up in a list returned by
/// `neighbors`.
pub fn find_neighbor<'a>(nbrs: &'a Vec<Neighbor>, d: Direction) -> (r: Option<&'a String>)
    ensures
        r matches Some(h) ==> exists|i: int| 0 <= i < nbrs@.len() && nbrs@[i].direction == d
            && nbrs@[i].geohash == *h,
        r is None ==> forall|i: int| 0 <= i < nbrs@.len() ==> nbrs@[i].direction != d,
{
    let mut i: usize = 0;
    while i < nbrs.len()
        invariant
            i <= nbrs@.len(),
            forall|j: int| 0 <= j < i ==> nbrs@[j].direction != d,
        decreases nbrs@.len() - i,
    {
        if nbrs[i].direction == d {
            return Some(&nbrs[i].geohash);
        }
        i += 1;
    }
    None
}


/// The items of `s` in order, each kept at its first occurrence only.
pub open spec fn dedup_seq(s: Seq<Seq<char>>) -> Seq<Seq<char>>
    decreases s.len(),
{
    if s.len() == 0 {
        Seq::empty()
    } else {
        let d = dedup_seq(s.drop_last());
        if d.contains(s.last()) {
            d
        } else {
            d.push(s.last())
        }
    }
}

/// The geohashes of the given cells, each once, in the order in which they first occur.
pub fn geohashes_of_cells(cells: &Vec<Cell>) -> (r: Vec<String>)
    requires
        forall|i: int| 0 <= i < cells@.len() ==> (#[trigger] cells@[i]).wf(),
    ensures
        r.deep_view() == dedup_seq(
            cells@.map_values(|c: Cell| geohash_at(c.indices(), c.precision as nat)),
        ),
{
    let ghost hs = cells@.map_values(|c: Cell| geohash_at(c.indices(), c.precision as nat));
    let mut out: Vec<String> = Vec::new();
    let mut i: usize = 0;
    proof {
        assert(hs.take(0) =~= Seq::<Seq<char>>::empty());
        assert(out.deep_view() =~= Seq::<Seq<char>>::empty());
    }
    while i < cells.len()
        invariant
            hs == cells@.map_values(|c: Cell| geohash_at(c.indices(), c.precision as nat)),
            forall|k: int| 0 <= k < cells@.len() ==> (#[trigger] cells@[k]).wf(),
            i <= cells@.len(),
            out.deep_view() == dedup_seq(hs.take(i as int)),
        decreases cells@.len() - i,
    {
        let h = encode_cell(&cells[i]);
        proof {
            lemma_geohash_at(h@);
            assert(hs[i as int] == h@);
            assert(hs.take(i + 1).drop_last() =~= hs.take(i as int));
            assert(hs.take(i + 1).last() == h@);
        }
        if !contains_text(&out, h.as_str()) {
            let ghost prev = out.deep_view();
            out.push(h);
            assert(out.deep_view() =~= prev.push(hs[i as int]));
        }
        i += 1;
    }
    assert(hs.take(cells@.len() as int) =~= hs);
    out
}


/// Rows and columns of the grid of geohash cells at `precision`.
pub fn grid_dimensions(precision: u8) -> (r: (u64, u64))
    requires
        precision <= MAX_PRECISION,
    ensures
        r.0 == pow2(lat_bits(precision as nat)),
        r.1 == pow2(lon_bits(precision as nat)),
{
    let p = precision as u64;
    proof {
        lemma_bits_fit(p as nat);
    }
    (pow2_u64((5 * p) / 2), pow2_u64((5 * p + 1) / 2))
}

/// Whether `s` is a geohash this library can decode: geohash digits only, at most
/// `MAX_PRECISION` of them.
pub fn is_valid_geohash(s: &str) -> (r: bool)
    ensures
        r == (is_geohash(s@) && s@.len() <= MAX_PRECISION),
{
    let v = chars_of(s);
    if v.len() > MAX_PRECISION as usize {
        return false;
    }
    let mut i: usize = 0;
    while i < v.len()
        invariant
            v@ == s@,
            i <= v@.len(),
            forall|j: int| 0 <= j < i ==> (#[trigger] base32_value(v@[j])) is Some,
        decreases v@.len() - i,
    {
        if base32_inv(v[i]).is_none() {
            assert(!is_geohash(s@)) by {
                assert(base32_value(s@[i as int]) is None);
            }
            return false;
        }
        i += 1;
    }
    true
}

} // verus!
