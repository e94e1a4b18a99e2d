use vstd::prelude::*;
use crate::vector::{Vec3, SCALE};
use crate::geometry::Triangle;
use crate::mesh::{assemble_mesh, floor_spec, load_spec, GeometryRecord, MeshError};
use crate::scene::mesh_wf;

verus! {

/// The pieces of `s` between occurrences of `sep`, as `str::split` gives
/// them: an empty input gives one empty piece.
pub open spec fn split_on(s: Seq<u8>, sep: u8) -> Seq<Seq<u8>>
    decreases s.len(),
{
    if s.len() == 0 {
        seq![Seq::empty()]
    } else {
        let rest = split_on(s.drop_last(), sep);
        if s.last() == sep {
            rest.push(Seq::empty())
        } else {
            rest.update(rest.len() - 1, rest.last().push(s.last()))
        }
    }
}

proof fn lemma_split_nonempty(s: Seq<u8>, sep: u8)
    ensures
        split_on(s, sep).len() >= 1,
    decreases s.len(),
{
    if s.len() > 0 {
        lemma_split_nonempty(s.drop_last(), sep);
    }
}

/// The pieces that a list of ranges marks out of `s`.
pub open spec fn pieces(s: Seq<u8>, r: Seq<(usize, usize)>) -> Seq<Seq<u8>> {
    r.map_values(|p: (usize, usize)| s.subrange(p.0 as int, p.1 as int))
}

/// Splits `s[lo..hi]` at each `sep` and returns the range of each piece.
pub fn split_ranges(s: &Vec<u8>, lo: usize, hi: usize, sep: u8) -> (r: Vec<(usize, usize)>)
    requires
        lo <= hi <= s@.len(),
    ensures
        pieces(s@, r@) == split_on(s@.subrange(lo as int, hi as int), sep),
        forall|k: int| 0 <= k < r@.len() ==> lo <= (#[trigger] r@[k]).0 <= r@[k].1 <= hi,
{
    let mut done: Vec<(usize, usize)> = Vec::new();
    let mut start: usize = lo;
    let mut i: usize = lo;
    proof {
        assert(s@.subrange(lo as int, lo as int) =~= Seq::<u8>::empty());
        assert(pieces(s@, done@).push(s@.subrange(start as int, i as int)) =~= seq![
            Seq::<u8>::empty(),
        ]);
    }
    while i < hi
        invariant
            lo <= start <= i <= hi <= s@.len(),
            pieces(s@, done@).push(s@.subrange(start as int, i as int)) == split_on(
                s@.subrange(lo as int, i as int),
                sep,
            ),
            forall|k: int| 0 <= k < done@.len() ==> lo <= (#[trigger] done@[k]).0 <= done@[k].1 <= i,
        decreases hi - i,
    {
        let ghost prev = split_on(s@.subrange(lo as int, i as int), sep);
        assert(s@.subrange(lo as int, i as int + 1).drop_last() =~= s@.subrange(lo as int, i as int));
        assert(s@.subrange(lo as int, i as int + 1).last() == s@[i as int]);
        if s[i] == sep {
            done.push((start, i));
            start = i + 1;
            assert(pieces(s@, done@) =~= prev);
            assert(s@.subrange(start as int, i as int + 1) =~= Seq::<u8>::empty());
        } else {
            assert(s@.subrange(start as int, i as int + 1) =~= s@.subrange(start as int, i as int).push(
                s@[i as int],
            ));
            assert(pieces(s@, done@).push(s@.subrange(start as int, i as int + 1)) =~= prev.update(
                prev.len() - 1,
                prev.last().push(s@[i as int]),
            ));
        }
        i = i + 1;
    }
    done.push((start, hi));
    assert(pieces(s@, done@) =~= split_on(s@.subrange(lo as int, hi as int), sep));
    done
}

pub open spec fn is_digit(b: u8) -> bool {
    48 <= b <= 57
}

pub open spec fn all_digits(s: Seq<u8>) -> bool {
    forall|k: int| 0 <= k < s.len() ==> is_digit(#[trigger] s[k])
}

/// The number that a string of decimal digits spells.
pub open spec fn digits_value(s: Seq<u8>) -> int
    decreases s.len(),
{
    if s.len() == 0 {
        0
    } else {
        digits_value(s.drop_last()) * 10 + (s.last() - 48)
    }
}

pub open spec fn pow10(n: nat) -> int
    decreases n,
{
    if n == 0 {
        1
    } else {
        10 * pow10((n - 1) as nat)
    }
}

proof fn lemma_pow10_mono(a: nat, b: nat)
    requires
        a <= b,
    ensures
        1 <= pow10(a) <= pow10(b),
    decreases b,
{
    if b > 0 {
        if a < b {
            lemma_pow10_mono(a, (b - 1) as nat);
        } else {
            lemma_pow10_mono((a - 1) as nat, (b - 1) as nat);
        }
    }
}

proof fn lemma_pow10_values()
    ensures
        pow10(9) == 1000000000,
        pow10(10) == 10000000000,
        pow10(18) == 1000000000000000000,
        pow10(27) == 1000000000000000000000000000,
        pow10(33) == 1000000000000000000000000000000000,
        pow10(34) == 10000000000000000000000000000000000,
        pow10(36) == 1000000000000000000000000000000000000,
{
    reveal_with_fuel(pow10, 37);
}

proof fn lemma_digits_bound(s: Seq<u8>)
    requires
        all_digits(s),
    ensures
        0 <= digits_value(s) < pow10(s.len()),
    decreases s.len(),
{
    if s.len() > 0 {
        assert(all_digits(s.drop_last())) by {
            assert forall|k: int| 0 <= k < s.drop_last().len() implies is_digit(
                #[trigger] s.drop_last()[k],
            ) by {
                assert(is_digit(s[k]));
            }
        }
        assert(is_digit(s[s.len() - 1]));
        lemma_digits_bound(s.drop_last());
    }
}

/// Whether `s[lo..hi]` holds decimal digits only.
fn digits_only(s: &Vec<u8>, lo: usize, hi: usize) -> (r: bool)
    requires
        lo <= hi <= s@.len(),
    ensures
        r == all_digits(s@.subrange(lo as int, hi as int)),
{
    let mut i: usize = lo;
    while i < hi
        invariant
            lo <= i <= hi <= s@.len(),
            forall|k: int| lo <= k < i ==> is_digit(#[trigger] s@[k]),
        decreases hi - i,
    {
        if s[i] < 48 || s[i] > 57 {
            assert(!is_digit(s@.subrange(lo as int, hi as int)[i - lo]));
            return false;
        }
        i = i + 1;
    }
    assert forall|k: int| 0 <= k < hi - lo implies is_digit(
        #[trigger] s@.subrange(lo as int, hi as int)[k],
    ) by {
        assert(is_digit(s@[lo + k]));
    }
    true
}

/// The value of the digits `s[lo..hi]`, at most eighteen of them.
fn digits_number(s: &Vec<u8>, lo: usize, hi: usize) -> (r: u64)
    requires
        lo <= hi <= s@.len(),
        hi - lo <= 18,
        all_digits(s@.subrange(lo as int, hi as int)),
    ensures
        r == digits_value(s@.subrange(lo as int, hi as int)),
        r < pow10((hi - lo) as nat),
{
    let mut v: u64 = 0;
    let mut i: usize = lo;
    proof {
        lemma_pow10_values();
        assert(s@.subrange(lo as int, lo as int) =~= Seq::<u8>::empty());
    }
    while i < hi
        invariant
            lo <= i <= hi <= s@.len(),
            hi - lo <= 18,
            all_digits(s@.subrange(lo as int, hi as int)),
            v == digits_value(s@.subrange(lo as int, i as int)),
            v < pow10((i - lo) as nat),
            pow10(18) == 1000000000000000000,
        decreases hi - i,
    {
        assert(s@.subrange(lo as int, i as int + 1).drop_last() =~= s@.subrange(lo as int, i as int));
        assert(s@.subrange(lo as int, hi as int)[i - lo] == s@[i as int]);
        proof {
            lemma_pow10_mono((i + 1 - lo) as nat, 18);
        }
        v = v * 10 + (s[i] - 48) as u64;
        i = i + 1;
    }
    v
}

fn pow10_exec(n: usize) -> (r: u128)
    requires
        n <= 36,
    ensures
        r == pow10(n as nat),
{
    let mut p: u128 = 1;
    let mut i: usize = 0;
    proof {
        lemma_pow10_values();
    }
    while i < n
        invariant
            i <= n <= 36,
            p == pow10(i as nat),
            pow10(36) == 1000000000000000000000000000000000000,
        decreases n - i,
    {
        proof {
            lemma_pow10_mono((i + 1) as nat, 36);
        }
        p = p * 10;
        i = i + 1;
    }
    p
}

/// Magnitudes at or above this many scene units are refused.
pub const DECIMAL_BOUND: u128 = 1000000000;

pub open spec fn is_exp_mark(b: u8) -> bool {
    b == 101 || b == 69
}

/// The position of the first `e` or `E`, or the length when there is none.
pub open spec fn exp_at(s: Seq<u8>) -> int
    decreases s.len(),
{
    if s.len() == 0 {
        0
    } else if is_exp_mark(s[0]) {
        0
    } else {
        1 + exp_at(s.drop_first())
    }
}

/// An exponent: an optional sign and one to nine digits.
pub open spec fn exponent_spec(s: Seq<u8>) -> Option<int> {
    let signed = s.len() > 0 && (s[0] == 43 || s[0] == 45);
    let ds = if signed { s.subrange(1, s.len() as int) } else { s };
    if all_digits(ds) && 1 <= ds.len() <= 9 {
        Some(if s.len() > 0 && s[0] == 45 { -digits_value(ds) } else { digits_value(ds) })
    } else {
        None
    }
}

/// A mantissa `digits[.digits]` with at least one digit and at most nine
/// before the point, as `(m, f)`: its value is `m / 10^f`. Fraction digits
/// past the eighteenth are dropped.
pub open spec fn mantissa_spec(s: Seq<u8>) -> Option<(int, int)> {
    let parts = split_on(s, 46);
    let ip = parts[0];
    let fp = if parts.len() == 2 { parts[1] } else { Seq::<u8>::empty() };
    if parts.len() > 2 || !all_digits(ip) || !all_digits(fp) || ip.len() + fp.len() == 0
        || ip.len() > 9 {
        None
    } else {
        let f: int = if fp.len() > 18 { 18 } else { fp.len() as int };
        Some((digits_value(ip) * pow10(f as nat) + digits_value(fp.subrange(0, f)), f))
    }
}

/// The magnitude `m · 10^n` in fixed-point units, truncated; `None` when it
/// reaches `DECIMAL_BOUND` scene units.
pub open spec fn scaled_spec(m: int, n: int) -> Option<int> {
    if n >= 0 {
        if m * pow10(n as nat) >= DECIMAL_BOUND {
            None
        } else {
            Some(m * pow10(n as nat) * SCALE)
        }
    } else {
        if m >= DECIMAL_BOUND * pow10((-n) as nat) {
            None
        } else {
            Some(m * SCALE / pow10((-n) as nat))
        }
    }
}

/// A decimal number `[+|-]digits[.digits][(e|E)[+|-]digits]` in fixed-point
/// units, truncated towards zero.
pub open spec fn decimal_spec(s: Seq<u8>) -> Option<int> {
    let signed = s.len() > 0 && (s[0] == 43 || s[0] == 45);
    let neg = s.len() > 0 && s[0] == 45;
    let body = if signed { s.subrange(1, s.len() as int) } else { s };
    let k = exp_at(body);
    let e = if k < body.len() {
        exponent_spec(body.subrange(k + 1, body.len() as int))
    } else {
        Some(0int)
    };
    match (mantissa_spec(body.subrange(0, k)), e) {
        (Some((m, f)), Some(e)) => match scaled_spec(m, e - f) {
            Some(v) => Some(if neg { -v } else { v }),
            None => None,
        },
        _ => None,
    }
}

proof fn lemma_exp_at_bound(s: Seq<u8>)
    ensures
        0 <= exp_at(s) <= s.len(),
        exp_at(s) < s.len() ==> is_exp_mark(s[exp_at(s)]),
    decreases s.len(),
{
    if s.len() > 0 && !is_exp_mark(s[0]) {
        lemma_exp_at_bound(s.drop_first());
    }
}

/// The position of the first `e` or `E` in `s[lo..hi]`, or `hi`.
fn find_exp(s: &Vec<u8>, lo: usize, hi: usize) -> (r: usize)
    requires
        lo <= hi <= s@.len(),
    ensures
        lo <= r <= hi,
        r - lo == exp_at(s@.subrange(lo as int, hi as int)),
{
    let mut i: usize = lo;
    while i < hi
        invariant
            lo <= i <= hi <= s@.len(),
            exp_at(s@.subrange(lo as int, hi as int)) == (i - lo) + exp_at(
                s@.subrange(i as int, hi as int),
            ),
        decreases hi - i,
    {
        assert(s@.subrange(i as int, hi as int)[0] == s@[i as int]);
        if s[i] == 101 || s[i] == 69 {
            return i;
        }
        assert(s@.subrange(i as int, hi as int).drop_first() =~= s@.subrange(i + 1, hi as int));
        i = i + 1;
    }
    i
}

/// Reads the exponent in `s[lo..hi]`.
fn parse_exponent(s: &Vec<u8>, lo: usize, hi: usize) -> (r: Option<i64>)
    requires
        lo <= hi <= s@.len(),
    ensures
        match r {
            Some(v) => exponent_spec(s@.subrange(lo as int, hi as int)) == Some(v as int),
            None => exponent_spec(s@.subrange(lo as int, hi as int)) is None,
        },
        r is Some ==> -1000000000 < r->Some_0 < 1000000000,
{
    let ghost sub = s@.subrange(lo as int, hi as int);
    let signed = lo < hi && (s[lo] == 43 || s[lo] == 45);
    let neg = lo < hi && s[lo] == 45;
    let dlo = if signed { lo + 1 } else { lo };
    if signed {
        assert(sub.subrange(1, sub.len() as int) =~= s@.subrange(dlo as int, hi as int));
    }
    if hi - dlo < 1 || hi - dlo > 9 || !digits_only(s, dlo, hi) {
        return None;
    }
    let v = digits_number(s, dlo, hi);
    proof {
        lemma_pow10_values();
        lemma_pow10_mono((hi - dlo) as nat, 9);
    }
    Some(if neg { -(v as i64) } else { v as i64 })
}

/// Reads the mantissa in `s[lo..hi]`.
fn parse_mantissa(s: &Vec<u8>, lo: usize, hi: usize) -> (r: Option<(u128, usize)>)
    requires
        lo <= hi <= s@.len(),
    ensures
        match r {
            Some(v) => mantissa_spec(s@.subrange(lo as int, hi as int)) == Some(
                (v.0 as int, v.1 as int),
            ),
            None => mantissa_spec(s@.subrange(lo as int, hi as int)) is None,
        },
        r is Some ==> r->Some_0.0 < 1000000000000000000000000000 && r->Some_0.1 <= 18,
{
    let parts = split_ranges(s, lo, hi, 46);
    proof {
        lemma_split_nonempty(s@.subrange(lo as int, hi as int), 46);
    }
    if parts.len() > 2 {
        return None;
    }
    let ilo = parts[0].0;
    let ihi = parts[0].1;
    assert(pieces(s@, parts@)[0] == s@.subrange(ilo as int, ihi as int));
    let two = parts.len() == 2;
    let flo = if two { parts[1].0 } else { hi };
    let fhi = if two { parts[1].1 } else { hi };
    if two {
        assert(pieces(s@, parts@)[1] == s@.subrange(flo as int, fhi as int));
    } else {
        assert(s@.subrange(flo as int, fhi as int) =~= Seq::<u8>::empty());
    }
    if (ihi == ilo && fhi == flo) || ihi - ilo > 9 || !digits_only(s, ilo, ihi) || !digits_only(
        s,
        flo,
        fhi,
    ) {
        return None;
    }
    let f: usize = if fhi - flo > 18 { 18 } else { fhi - flo };
    let ghost fp = s@.subrange(flo as int, fhi as int);
    assert(fp.subrange(0, f as int) =~= s@.subrange(flo as int, flo + f));
    assert(all_digits(s@.subrange(flo as int, flo + f))) by {
        assert forall|k: int| 0 <= k < f implies is_digit(
            #[trigger] s@.subrange(flo as int, flo + f)[k],
        ) by {
            assert(is_digit(fp[k]));
        }
    }
    let ip = digits_number(s, ilo, ihi);
    let fv = digits_number(s, flo, flo + f);
    let p = pow10_exec(f);
    proof {
        lemma_pow10_values();
        lemma_pow10_mono((ihi - ilo) as nat, 9);
        lemma_pow10_mono(f as nat, 18);
        assert(ip * p + fv < 1000000000000000000000000000) by (nonlinear_arith)
            requires
                ip < 1000000000,
                fv < p,
                1 <= p <= 1000000000000000000,
        ;
    }
    Some((ip as u128 * p + fv as u128, f))
}

/// Scales `m · 10^n` to fixed-point units, or refuses it as too large.
fn scale_decimal(m: u128, n: i64) -> (r: Option<u128>)
    requires
        m < 1000000000000000000000000000,
        -1000000100 < n < 1000000000,
    ensures
        match r {
            Some(v) => scaled_spec(m as int, n as int) == Some(v as int),
            None => scaled_spec(m as int, n as int) is None,
        },
        r is Some ==> r->Some_0 < DECIMAL_BOUND * (SCALE as u128),
{
    proof {
        lemma_pow10_values();
    }
    if n >= 0 {
        if m == 0 {
            assert(0 * pow10(n as nat) == 0);
            return Some(0);
        }
        if n > 9 {
            proof {
                lemma_pow10_mono(10, n as nat);
                assert(m * pow10(n as nat) >= pow10(n as nat)) by (nonlinear_arith)
                    requires
                        m >= 1,
                        pow10(n as nat) >= 1,
                ;
            }
            return None;
        }
        let p = pow10_exec(n as usize);
        proof {
            lemma_pow10_mono(n as nat, 9);
            assert(m * p < 1000000000000000000000000000000000000) by (nonlinear_arith)
                requires
                    m < 1000000000000000000000000000,
                    p <= 1000000000,
            ;
        }
        let mp = m * p;
        if mp >= DECIMAL_BOUND {
            return None;
        }
        Some(mp * (SCALE as u128))
    } else {
        let k: u64 = (-n) as u64;
        if k <= 27 {
            let pk = pow10_exec(k as usize);
            proof {
                lemma_pow10_mono(k as nat, 27);
            }
            let b = DECIMAL_BOUND * pk;
            if m >= b {
                return None;
            }
        } else {
            proof {
                lemma_pow10_mono(27, k as nat);
                assert(m < DECIMAL_BOUND * pow10(k as nat)) by (nonlinear_arith)
                    requires
                        m < pow10(k as nat),
                ;
            }
        }
        let x = m * (SCALE as u128);
        if k <= 33 {
            let p = pow10_exec(k as usize);
            proof {
                lemma_pow10_mono(0, k as nat);
                assert(x / p <= x) by (nonlinear_arith)
                    requires
                        p >= 1,
                        x >= 0,
                ;
                assert(m >= DECIMAL_BOUND * pow10(k as nat) || m * SCALE / pow10(k as nat)
                    < DECIMAL_BOUND * SCALE) by (nonlinear_arith)
                    requires
                        pow10(k as nat) >= 1,
                        m >= 0,
                ;
            }
            Some(x / p)
        } else {
            proof {
                lemma_pow10_mono(34, k as nat);
                vstd::arithmetic::div_mod::lemma_basic_div(x as int, pow10(k as nat));
            }
            Some(0)
        }
    }
}

/// Reads the decimal number in `s[lo..hi]` as fixed-point units.
pub fn parse_decimal(s: &Vec<u8>, lo: usize, hi: usize) -> (r: Option<i128>)
    requires
        lo <= hi <= s@.len(),
    ensures
        match r {
            Some(v) => decimal_spec(s@.subrange(lo as int, hi as int)) == Some(v as int),
            None => decimal_spec(s@.subrange(lo as int, hi as int)) is None,
        },
{
    let ghost sub = s@.subrange(lo as int, hi as int);
    let signed = lo < hi && (s[lo] == 43 || s[lo] == 45);
    let neg = lo < hi && s[lo] == 45;
    let blo = if signed { lo + 1 } else { lo };
    let ghost body = s@.subrange(blo as int, hi as int);
    if signed {
        assert(sub.subrange(1, sub.len() as int) =~= body);
    } else {
        assert(sub =~= body);
    }
    let k = find_exp(s, blo, hi);
    proof {
        lemma_exp_at_bound(body);
    }
    assert(body.subrange(0, k - blo) =~= s@.subrange(blo as int, k as int));
    let e: i64 = if k < hi {
        assert(body.subrange(k - blo + 1, body.len() as int) =~= s@.subrange(k + 1, hi as int));
        match parse_exponent(s, k + 1, hi) {
            Some(e) => e,
            None => {
                return None;
            },
        }
    } else {
        0
    };
    let (m, f) = match parse_mantissa(s, blo, k) {
        Some(mf) => mf,
        None => {
            return None;
        },
    };
    match scale_decimal(m, e - f as i64) {
        Some(v) => Some(if neg { -(v as i128) } else { v as i128 }),
        None => None,
    }
}

/// A face index: one to nine decimal digits.
pub open spec fn index_spec(s: Seq<u8>) -> Option<int> {
    if all_digits(s) && 1 <= s.len() <= 9 {
        Some(digits_value(s))
    } else {
        None
    }
}

/// Reads the face index in `s[lo..hi]`.
pub fn parse_index(s: &Vec<u8>, lo: usize, hi: usize) -> (r: Option<usize>)
    requires
        lo <= hi <= s@.len(),
    ensures
        match r {
            Some(v) => index_spec(s@.subrange(lo as int, hi as int)) == Some(v as int),
            None => index_spec(s@.subrange(lo as int, hi as int)) is None,
        },
{
    if hi - lo < 1 || hi - lo > 9 || !digits_only(s, lo, hi) {
        return None;
    }
    let v = digits_number(s, lo, hi);
    proof {
        lemma_pow10_values();
        lemma_pow10_mono((hi - lo) as nat, 9);
    }
    Some(v as usize)
}

/// The space-separated fields of a line, after its marker byte and the byte
/// that follows it.
pub open spec fn record_fields(line: Seq<u8>) -> Seq<Seq<u8>> {
    split_on(line.subrange(2, line.len() as int), 32)
}

/// The record that a line declares: a vertex when it starts with `v`, a face
/// otherwise. Every field must be well formed; the first three are used.
pub open spec fn record_spec(line: Seq<u8>) -> Option<GeometryRecord> {
    if line.len() < 2 || record_fields(line).len() < 3 {
        None
    } else if line[0] == 118 {
        let f = record_fields(line);
        if forall|k: int| 0 <= k < f.len() ==> (#[trigger] decimal_spec(f[k])) is Some {
            Some(
                GeometryRecord::Vertex(
                    Vec3 {
                        x: decimal_spec(f[0])->Some_0 as i128,
                        y: decimal_spec(f[1])->Some_0 as i128,
                        z: decimal_spec(f[2])->Some_0 as i128,
                    },
                ),
            )
        } else {
            None
        }
    } else {
        let f = record_fields(line);
        if forall|k: int| 0 <= k < f.len() ==> (#[trigger] index_spec(f[k])) is Some {
            Some(
                GeometryRecord::Face(
                    index_spec(f[0])->Some_0 as usize,
                    index_spec(f[1])->Some_0 as usize,
                    index_spec(f[2])->Some_0 as usize,
                ),
            )
        } else {
            None
        }
    }
}

/// Reads the record on the line `s[lo..hi]`.
pub fn parse_record(s: &Vec<u8>, lo: usize, hi: usize) -> (r: Option<GeometryRecord>)
    requires
        lo <= hi <= s@.len(),
    ensures
        r == record_spec(s@.subrange(lo as int, hi as int)),
{
    let ghost line = s@.subrange(lo as int, hi as int);
    if hi - lo < 2 {
        return None;
    }
    assert(line[0] == s@[lo as int]);
    let f = split_ranges(s, lo + 2, hi, 32);
    assert(line.subrange(2, line.len() as int) =~= s@.subrange(lo + 2, hi as int));
    let ghost fs = record_fields(line);
    if f.len() < 3 {
        return None;
    }
    let n = f.len();
    if s[lo] == 118 {
        let mut vals: Vec<i128> = Vec::new();
        let mut k: usize = 0;
        while k < n
            invariant
                n == f@.len(),
                n >= 3,
                lo + 2 <= hi <= s@.len(),
                line == s@.subrange(lo as int, hi as int),
                fs == record_fields(line),
                fs == pieces(s@, f@),
                forall|m: int| 0 <= m < n ==> (#[trigger] f@[m]).0 <= f@[m].1 <= s@.len(),
                k <= n,
                vals@.len() == k,
                line[0] == 118,
                forall|m: int| 0 <= m < k ==> decimal_spec(#[trigger] fs[m]) == Some(vals@[m] as int),
            decreases n - k,
        {
            assert(fs[k as int] == s@.subrange(f@[k as int].0 as int, f@[k as int].1 as int));
            match parse_decimal(s, f[k].0, f[k].1) {
                Some(v) => vals.push(v),
                None => {
                    assert(line[0] == s@[lo as int]);
                    assert(decimal_spec(fs[k as int]) is None);
                    assert(fs.len() == n);
                    assert(!(forall|m: int| 0 <= m < fs.len() ==> (#[trigger] decimal_spec(fs[m])) is Some));
                    return None;
                },
            }
            k = k + 1;
        }
        assert(line[0] == s@[lo as int]);
        Some(GeometryRecord::Vertex(Vec3 { x: vals[0], y: vals[1], z: vals[2] }))
    } else {
        let mut vals: Vec<usize> = Vec::new();
        let mut k: usize = 0;
        while k < n
            invariant
                n == f@.len(),
                n >= 3,
                lo + 2 <= hi <= s@.len(),
                line == s@.subrange(lo as int, hi as int),
                fs == record_fields(line),
                fs == pieces(s@, f@),
                forall|m: int| 0 <= m < n ==> (#[trigger] f@[m]).0 <= f@[m].1 <= s@.len(),
                k <= n,
                vals@.len() == k,
                line[0] != 118,
                forall|m: int| 0 <= m < k ==> index_spec(#[trigger] fs[m]) == Some(vals@[m] as int),
            decreases n - k,
        {
            assert(fs[k as int] == s@.subrange(f@[k as int].0 as int, f@[k as int].1 as int));
            match parse_index(s, f[k].0, f[k].1) {
                Some(v) => vals.push(v),
                None => {
                    assert(line[0] == s@[lo as int]);
                    assert(index_spec(fs[k as int]) is None);
                    assert(fs.len() == n);
                    assert(!(forall|m: int| 0 <= m < fs.len() ==> (#[trigger] index_spec(fs[m])) is Some));
                    return None;
                },
            }
            k = k + 1;
        }
        assert(line[0] == s@[lo as int]);
        Some(GeometryRecord::Face(vals[0], vals[1], vals[2]))
    }
}

/// Why a geometry text was rejected.
#[derive(Clone, Copy, Debug, PartialEq, Eq, Structural)]
pub enum LoadError {
    /// The line with this index (from zero) is not a well-formed record.
    MalformedLine(usize),
    /// The records parse but do not form a mesh.
    Mesh(MeshError),
}

/// A line is blank, or a well-formed record.
pub open spec fn line_ok(line: Seq<u8>) -> bool {
    line.len() == 0 || record_spec(line) is Some
}

/// Every line of the text is blank or a well-formed record.
pub open spec fn all_records(lines: Seq<Seq<u8>>) -> bool {
    forall|k: int| 0 <= k < lines.len() ==> line_ok(#[trigger] lines[k])
}

/// The records of the non-blank lines, in order, where every line is well
/// formed; blank lines declare nothing.
pub open spec fn records_of(lines: Seq<Seq<u8>>) -> Seq<GeometryRecord>
    decreases lines.len(),
{
    if lines.len() == 0 {
        Seq::empty()
    } else {
        let before = records_of(lines.drop_last());
        if lines.last().len() == 0 {
            before
        } else {
            before.push(record_spec(lines.last())->Some_0)
        }
    }
}

/// The lines of a geometry text, split at each newline.
pub open spec fn text_lines(text: Seq<u8>) -> Seq<Seq<u8>> {
    split_on(text, 10)
}

/// Reads every non-blank line of `text` as a record, skipping blank lines;
/// the first malformed line is reported by its position in the text.
pub fn parse_geometry(text: &Vec<u8>) -> (r: Result<Vec<GeometryRecord>, LoadError>)
    ensures
        match r {
            Ok(recs) => all_records(text_lines(text@)) && recs@ == records_of(text_lines(text@)),
            Err(LoadError::MalformedLine(k)) => k < text_lines(text@).len() && !line_ok(
                text_lines(text@)[k as int],
            ) && forall|m: int| 0 <= m < k ==> line_ok(#[trigger] text_lines(text@)[m]),
            Err(LoadError::Mesh(_)) => false,
        },
{
    let lines = split_ranges(text, 0, text.len(), 10);
    let ghost ls = text_lines(text@);
    assert(text@.subrange(0, text@.len() as int) =~= text@);
    let n = lines.len();
    let mut recs: Vec<GeometryRecord> = Vec::new();
    let mut k: usize = 0;
    assert(ls.subrange(0, 0) =~= Seq::<Seq<u8>>::empty());
    while k < n
        invariant
            n == lines@.len(),
            ls == pieces(text@, lines@),
            ls == text_lines(text@),
            forall|m: int| 0 <= m < n ==> (#[trigger] lines@[m]).0 <= lines@[m].1 <= text@.len(),
            k <= n,
            recs@ == records_of(ls.subrange(0, k as int)),
            forall|m: int| 0 <= m < k ==> line_ok(#[trigger] ls[m]),
        decreases n - k,
    {
        assert(ls[k as int] == text@.subrange(lines@[k as int].0 as int, lines@[k as int].1 as int));
        assert(ls.subrange(0, k as int + 1).drop_last() =~= ls.subrange(0, k as int));
        assert(ls.subrange(0, k as int + 1).last() == ls[k as int]);
        let lo = lines[k].0;
        let hi = lines[k].1;
        if lo < hi {
            match parse_record(text, lo, hi) {
                Some(rec) => recs.push(rec),
                None => {
                    return Err(LoadError::MalformedLine(k));
                },
            }
        }
        k = k + 1;
    }
    assert(ls.subrange(0, n as int) =~= ls);
    Ok(recs)
}

/// Reads a geometry text and builds its mesh, with the background plane
/// appended; blank lines are skipped.
pub fn load_object(text: &Vec<u8>) -> (r: Result<Vec<Triangle>, LoadError>)
    ensures
        match r {
            Ok(mesh) => {
                &&& all_records(text_lines(text@))
                &&& load_spec(records_of(text_lines(text@))) is Ok
                &&& mesh@ == load_spec(records_of(text_lines(text@)))->Ok_0.1.push(floor_spec())
                &&& mesh_wf(mesh@)
            },
            Err(LoadError::MalformedLine(k)) => k < text_lines(text@).len() && !line_ok(
                text_lines(text@)[k as int],
            ) && forall|m: int| 0 <= m < k ==> line_ok(#[trigger] text_lines(text@)[m]),
            Err(LoadError::Mesh(e)) => all_records(text_lines(text@)) && load_spec(
                records_of(text_lines(text@)),
            ) == Err::<(Seq<Vec3>, Seq<Triangle>), MeshError>(e),
        },
{
    let recs = match parse_geometry(text) {
        Ok(recs) => recs,
        Err(e) => {
            return Err(e);
        },
    };
    match assemble_mesh(&recs) {
        Ok(mesh) => Ok(mesh),
        Err(e) => Err(LoadError::Mesh(e)),
    }
}

} // verus!
