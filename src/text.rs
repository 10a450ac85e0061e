//! Splitting text and reading numbers, booleans and column names from it.
use vstd::prelude::*;
use crate::value::{Cell, Value, SCALE, copy_chars};

verus! {

/// The pieces of `s` between occurrences of `sep` (one more piece than separators).
pub open spec fn split(s: Seq<char>, sep: char) -> Seq<Seq<char>>
    decreases s.len(),
{
    if s.len() == 0 {
        seq![Seq::<char>::empty()]
    } else {
        let p = split(s.drop_last(), sep);
        if s.last() == sep {
            p.push(Seq::<char>::empty())
        } else {
            p.update(p.len() - 1, p.last().push(s.last()))
        }
    }
}

pub proof fn lemma_split_nonempty(s: Seq<char>, sep: char)
    ensures
        split(s, sep).len() >= 1,
    decreases s.len(),
{
    if s.len() > 0 {
        lemma_split_nonempty(s.drop_last(), sep);
    }
}

/// Splits `s` at each `sep`; see `split`.
pub fn split_on(s: &Vec<char>, sep: char) -> (r: Vec<Vec<char>>)
    ensures
        r@.map_values(|p: Vec<char>| p@) == split(s@, sep),
{
    let mut out: Vec<Vec<char>> = Vec::new();
    let mut cur: Vec<char> = Vec::new();
    let mut i: usize = 0;
    proof {
        assert(s@.take(0) =~= Seq::<char>::empty());
    }
    while i < s.len()
        invariant
            i <= s.len(),
            out@.map_values(|p: Vec<char>| p@).push(cur@) == split(s@.take(i as int), sep),
        decreases s.len() - i,
    {
        let ghost before = split(s@.take(i as int), sep);
        proof {
            assert(s@.take(i + 1).drop_last() =~= s@.take(i as int));
            assert(s@.take(i + 1).last() == s@[i as int]);
            lemma_split_nonempty(s@.take(i as int), sep);
        }
        let ghost o = out@;
        if s[i] == sep {
            let done = cur;
            out.push(done);
            cur = Vec::new();
            proof {
                assert(out@.map_values(|p: Vec<char>| p@) =~= o.map_values(|p: Vec<char>| p@).push(done@));
                assert(cur@ =~= Seq::<char>::empty());
            }
        } else {
            let ghost c0 = cur@;
            cur.push(s[i]);
            proof {
                assert(before.last() == c0);
                assert(o.map_values(|p: Vec<char>| p@).push(cur@) =~= before.update(before.len() - 1, c0.push(s@[i as int])));
            }
        }
        i = i + 1;
    }
    proof {
        assert(s@.take(i as int) =~= s@);
    }
    let ghost o = out@;
    out.push(cur);
    proof {
        assert(out@.map_values(|p: Vec<char>| p@) =~= o.map_values(|p: Vec<char>| p@).push(cur@));
    }
    out
}

pub open spec fn is_digit(c: char) -> bool {
    '0' <= c <= '9'
}

/// One or more decimal digits.
pub open spec fn all_digits(s: Seq<char>) -> bool {
    s.len() > 0 && forall|i: int| 0 <= i < s.len() ==> is_digit(#[trigger] s[i])
}

pub open spec fn digits_value(s: Seq<char>) -> int
    decreases s.len(),
{
    if s.len() == 0 { 0 } else { digits_value(s.drop_last()) * 10 + (s.last() as int - '0' as int) }
}

pub open spec fn pow10(n: nat) -> int
    decreases n,
{
    if n == 0 { 1 } else { 10 * pow10((n - 1) as nat) }
}

/// Text without its leading minus sign, and whether there was one.
pub open spec fn unsigned_part(s: Seq<char>) -> (Seq<char>, bool) {
    if s.len() > 0 && s[0] == '-' { (s.drop_first(), true) } else { (s, false) }
}

/// `x`, negated when `neg`.
pub open spec fn signed(neg: bool, x: int) -> int {
    if neg { -x } else { x }
}

/// An integer: an optional minus and 1 to 18 digits.
pub open spec fn int_text(s: Seq<char>) -> Option<int> {
    let (u, neg) = unsigned_part(s);
    if all_digits(u) && u.len() <= 18 { Some(signed(neg, digits_value(u))) } else { None }
}

/// Position of the first `.` in `s`, if any.
#[verifier::opaque]
pub open spec fn dot_at(s: Seq<char>) -> Option<int> {
    if exists|i: int| 0 <= i < s.len() && s[i] == '.' {
        Some(choose|i: int| 0 <= i < s.len() && s[i] == '.' && forall|j: int| 0 <= j < i ==> s[j] != '.')
    } else {
        None
    }
}

/// A decimal: an optional minus, 1 to 12 digits, a dot and 1 to 6 digits; its value in millionths.
#[verifier::opaque]
pub open spec fn float_text(s: Seq<char>) -> Option<int> {
    let (u, neg) = unsigned_part(s);
    match dot_at(u) {
        Some(p) => {
            let (a, b) = (u.take(p), u.skip(p + 1));
            if all_digits(a) && a.len() <= 12 && all_digits(b) && b.len() <= 6 {
                Some(signed(neg, digits_value(a) * SCALE + digits_value(b) * pow10((6 - b.len()) as nat)))
            } else {
                None
            }
        },
        None => None,
    }
}

/// `true` or `false`.
pub open spec fn bool_text(s: Seq<char>) -> Option<bool> {
    if s == seq!['t', 'r', 'u', 'e'] {
        Some(true)
    } else if s == seq!['f', 'a', 'l', 's', 'e'] {
        Some(false)
    } else {
        None
    }
}

proof fn lemma_digits_bound(s: Seq<char>)
    requires
        forall|i: int| 0 <= i < s.len() ==> is_digit(#[trigger] s[i]),
    ensures
        0 <= digits_value(s) < pow10(s.len()),
    decreases s.len(),
{
    if s.len() > 0 {
        lemma_digits_bound(s.drop_last());
        assert(is_digit(s[s.len() - 1]));
    }
}

proof fn lemma_pow10_18()
    ensures
        pow10(18) == 1_000_000_000_000_000_000,
        pow10(12) == 1_000_000_000_000,
        pow10(6) == 1_000_000,
{
    reveal_with_fuel(pow10, 19);
}

proof fn lemma_pow10_mono(a: nat, b: nat)
    requires
        a <= b,
    ensures
        1 <= pow10(a) <= pow10(b),
    decreases b,
{
    if b > a {
        lemma_pow10_mono(a, (b - 1) as nat);
    } else {
        lemma_pow10_pos(a);
    }
}

proof fn lemma_pow10_add(a: nat, b: nat)
    ensures
        pow10(a) * pow10(b) == pow10(a + b),
    decreases b,
{
    if b > 0 {
        lemma_pow10_add(a, (b - 1) as nat);
        assert(pow10(a + b) == 10 * pow10((a + b - 1) as nat));
        assert(pow10(a) * pow10(b) == pow10(a) * (10 * pow10((b - 1) as nat)));
        assert(pow10(a) * (10 * pow10((b - 1) as nat)) == 10 * (pow10(a) * pow10((b - 1) as nat))) by (nonlinear_arith);
    }
}

proof fn lemma_pow10_pos(n: nat)
    ensures
        pow10(n) >= 1,
    decreases n,
{
    if n > 0 {
        lemma_pow10_pos((n - 1) as nat);
    }
}

/// The value of the digits `s[lo..hi]`, when they are 1 to 18 digits.
pub fn read_digits(s: &Vec<char>, lo: usize, hi: usize) -> (r: Option<u64>)
    requires
        lo <= hi <= s@.len(),
    ensures
        match r {
            Some(v) => all_digits(s@.subrange(lo as int, hi as int)) && v == digits_value(s@.subrange(lo as int, hi as int))
                && v < pow10((hi - lo) as nat),
            None => !all_digits(s@.subrange(lo as int, hi as int)) || hi - lo > 18,
        },
        hi - lo <= 18 ==> r is Some || !all_digits(s@.subrange(lo as int, hi as int)),
{
    if lo == hi {
        return None;
    }
    if hi - lo > 18 {
        let mut k: usize = lo;
        while k < hi
            invariant
                lo <= k <= hi <= s@.len(),
                forall|j: int| lo <= j < k ==> is_digit(#[trigger] s@[j]),
            decreases hi - k,
        {
            if !(s[k] >= '0' && s[k] <= '9') {
                proof {
                    assert(!is_digit(s@.subrange(lo as int, hi as int)[k - lo]));
                }
                return None;
            }
            k = k + 1;
        }
    }
    let mut v: u64 = 0;
    let mut k: usize = lo;
    proof {
        lemma_pow10_18();
    }
    while k < hi
        invariant
            lo <= k <= hi <= s@.len(),
            hi - lo <= 18 || forall|j: int| lo <= j < hi ==> is_digit(#[trigger] s@[j]),
            forall|j: int| lo <= j < k ==> is_digit(#[trigger] s@[j]),
            v == digits_value(s@.subrange(lo as int, k as int)),
            k - lo <= 18,
            v < pow10((k - lo) as nat),
            pow10(18) == 1_000_000_000_000_000_000,
        decreases hi - k,
    {
        let ch = s[k];
        if !(ch >= '0' && ch <= '9') {
            proof {
                assert(!is_digit(s@.subrange(lo as int, hi as int)[k - lo]));
            }
            return None;
        }
        proof {
            assert(s@.subrange(lo as int, k + 1).drop_last() =~= s@.subrange(lo as int, k as int));
            lemma_digits_bound(s@.subrange(lo as int, k as int));
        }
        if k - lo >= 18 {
            return None;
        }
        proof {
            lemma_pow10_mono((k - lo) as nat, 17);
            assert(pow10(17) == 100_000_000_000_000_000) by {
                reveal_with_fuel(pow10, 18);
            }
        }
        v = v * 10 + (ch as u64 - '0' as u64);
        k = k + 1;
    }
    proof {
        assert forall|j: int| 0 <= j < hi - lo implies is_digit(#[trigger] s@.subrange(lo as int, hi as int)[j]) by {
            assert(s@.subrange(lo as int, hi as int)[j] == s@[lo + j]);
        }
    }
    Some(v)
}

/// What a CSV field reads as, before its column's type is known: empty is null,
/// then a boolean, an integer, a decimal, or else text.
pub open spec fn classify(s: Seq<char>) -> Cell {
    if s.len() == 0 {
        Cell::Null
    } else if let Some(b) = bool_text(s) {
        Cell::Bool(b)
    } else if let Some(v) = int_text(s) {
        Cell::Int(v)
    } else if let Some(m) = float_text(s) {
        Cell::Float(m)
    } else {
        Cell::Str(s)
    }
}

/// Reads `true` or `false`; see `bool_text`.
pub fn read_bool(s: &Vec<char>) -> (r: Option<bool>)
    ensures
        r == bool_text(s@),
{
    if s.len() == 4 && s[0] == 't' && s[1] == 'r' && s[2] == 'u' && s[3] == 'e' {
        proof {
            assert(s@ =~= seq!['t', 'r', 'u', 'e']);
        }
        Some(true)
    } else if s.len() == 5 && s[0] == 'f' && s[1] == 'a' && s[2] == 'l' && s[3] == 's' && s[4] == 'e' {
        proof {
            assert(s@ =~= seq!['f', 'a', 'l', 's', 'e']);
        }
        Some(false)
    } else {
        proof {
            if s@ == seq!['t', 'r', 'u', 'e'] {
                assert(s@[3] == 'e');
            }
            if s@ == seq!['f', 'a', 'l', 's', 'e'] {
                assert(s@[4] == 'e');
            }
        }
        None
    }
}

/// Where the digits start: after a leading minus, if any.
pub fn sign_end(s: &Vec<char>) -> (r: (usize, bool))
    ensures
        r.0 <= s@.len(),
        unsigned_part(s@).0 == s@.skip(r.0 as int),
        unsigned_part(s@).1 == r.1,
{
    if s.len() > 0 && s[0] == '-' {
        proof {
            assert(s@.drop_first() =~= s@.skip(1));
        }
        (1, true)
    } else {
        proof {
            assert(s@ =~= s@.skip(0));
        }
        (0, false)
    }
}

/// Reads an integer; see `int_text`.
pub fn read_int(s: &Vec<char>) -> (r: Option<i64>)
    ensures
        match int_text(s@) {
            Some(v) => r == Some(v as i64) && i64::MIN <= v <= i64::MAX,
            None => r is None,
        },
{
    let (lo, neg) = sign_end(s);
    proof {
        assert(s@.subrange(lo as int, s@.len() as int) =~= s@.skip(lo as int));
        lemma_pow10_18();
    }
    if s.len() - lo > 18 {
        return None;
    }
    match read_digits(s, lo, s.len()) {
        Some(v) => {
            proof {
                lemma_pow10_mono((s@.len() - lo) as nat, 18);
            }
            if neg { Some(-(v as i64)) } else { Some(v as i64) }
        },
        None => None,
    }
}

/// Finds the first `.` at or after `lo`.
pub fn find_dot(s: &Vec<char>, lo: usize) -> (r: Option<usize>)
    requires
        lo <= s@.len(),
    ensures
        match dot_at(s@.skip(lo as int)) {
            Some(p) => (r matches Some(q) && q == lo + p) && 0 <= p < s@.len() - lo,
            None => r is None,
        },
{
    let ghost u = s@.skip(lo as int);
    proof {
        reveal(dot_at);
    }
    let mut i: usize = lo;
    while i < s.len()
        invariant
            lo <= i <= s@.len(),
            u == s@.skip(lo as int),
            forall|j: int| 0 <= j < i - lo ==> u[j] != '.',
        decreases s.len() - i,
    {
        if s[i] == '.' {
            proof {
                reveal(dot_at);
                let p = (i - lo) as int;
                assert(u[p] == '.');
                assert(exists|q: int| 0 <= q < u.len() && u[q] == '.');
                let c = choose|q: int| 0 <= q < u.len() && u[q] == '.' && forall|j: int| 0 <= j < q ==> u[j] != '.';
                assert(0 <= p < u.len() && u[p] == '.' && forall|j: int| 0 <= j < p ==> u[j] != '.');
                if c < p {
                    assert(u[c] != '.');
                } else if c > p {
                    assert(u[p] != '.');
                }
            }
            return Some(i);
        }
        i = i + 1;
    }
    proof {
        reveal(dot_at);
        assert(!exists|q: int| 0 <= q < u.len() && u[q] == '.') by {
            if exists|q: int| 0 <= q < u.len() && u[q] == '.' {
                let q = choose|q: int| 0 <= q < u.len() && u[q] == '.';
                assert(u[q] != '.');
            }
        }
    }
    None
}

/// `10^(6 - k)`.
fn frac_scale(k: usize) -> (r: u64)
    requires
        k <= 6,
    ensures
        r == pow10((6 - k) as nat),
        r <= 1_000_000,
{
    let mut scale: u64 = 1;
    let mut j: usize = k;
    proof {
        lemma_pow10_18();
    }
    while j < 6
        invariant
            k <= j <= 6,
            scale == pow10((j - k) as nat),
            pow10(6) == 1_000_000,
        decreases 6 - j,
    {
        proof {
            lemma_pow10_mono((j + 1 - k) as nat, 6);
        }
        scale = scale * 10;
        j = j + 1;
    }
    proof {
        lemma_pow10_18();
        lemma_pow10_mono((6 - k) as nat, 6);
    }
    scale
}

proof fn lemma_frac_bound(b: int, k: nat)
    requires
        k <= 6,
        0 <= b < pow10(k),
    ensures
        0 <= b * pow10((6 - k) as nat) < 1_000_000,
{
    lemma_pow10_add(k, (6 - k) as nat);
    lemma_pow10_18();
    lemma_pow10_pos((6 - k) as nat);
    let q = pow10((6 - k) as nat);
    assert(b * q < pow10(k) * q) by (nonlinear_arith)
        requires
            b < pow10(k),
            q >= 1,
    ;
    assert(b * q >= 0) by (nonlinear_arith)
        requires
            b >= 0,
            q >= 1,
    ;
}

#[verifier::rlimit(60)]
proof fn lemma_float_parts(s: Seq<char>, lo: int, d: int, neg: bool)
    requires
        unsigned_part(s).0 == s.skip(lo),
        unsigned_part(s).1 == neg,
        0 <= lo <= d < s.len(),
        dot_at(s.skip(lo)) == Some(d - lo),
    ensures
        float_text(s) == if all_digits(s.subrange(lo, d)) && d - lo <= 12 && all_digits(s.subrange(d + 1, s.len() as int))
            && s.len() - d - 1 <= 6 {
            let x = digits_value(s.subrange(lo, d)) * SCALE + digits_value(s.subrange(d + 1, s.len() as int))
                * pow10((6 - (s.len() - d - 1)) as nat);
            Some(signed(neg, x))
        } else {
            None
        },
{
    reveal(float_text);
    let u = s.skip(lo);
    assert(u.take(d - lo) =~= s.subrange(lo, d));
    assert(u.skip(d - lo + 1) =~= s.subrange(d + 1, s.len() as int));
}

/// Reads a decimal as millionths; see `float_text`.
#[verifier::rlimit(60)]
pub fn read_float(s: &Vec<char>) -> (r: Option<i64>)
    ensures
        match float_text(s@) {
            Some(v) => r == Some(v as i64) && i64::MIN <= v <= i64::MAX,
            None => r is None,
        },
{
    let (lo, neg) = sign_end(s);
    match find_dot(s, lo) {
        Some(d) => {
            proof {
                let p = dot_at(s@.skip(lo as int)).unwrap();
                assert(0 <= p < s@.len() - lo);
                assert(d as int == lo + p);
            }
            read_float_at(s, lo, d, neg)
        },
        None => {
            proof {
                reveal(float_text);
            }
            None
        },
    }
}

#[verifier::rlimit(50)]
fn read_float_at(s: &Vec<char>, lo: usize, d: usize, neg: bool) -> (r: Option<i64>)
    requires
        unsigned_part(s@).0 == s@.skip(lo as int),
        unsigned_part(s@).1 == neg,
        lo <= d < s@.len(),
        dot_at(s@.skip(lo as int)) == Some(d - lo),
    ensures
        match float_text(s@) {
            Some(v) => r == Some(v as i64) && i64::MIN <= v <= i64::MAX,
            None => r is None,
        },
{
    proof {
        lemma_float_parts(s@, lo as int, d as int, neg);
        lemma_pow10_18();
    }
    if d - lo > 12 || s.len() - (d + 1) > 6 {
        return None;
    }
    let a = match read_digits(s, lo, d) {
        Some(a) => a,
        None => return None,
    };
    let b = match read_digits(s, d + 1, s.len()) {
        Some(b) => b,
        None => return None,
    };
    let blen = s.len() - (d + 1);
    let scale = frac_scale(blen);
    proof {
        lemma_pow10_mono((d - lo) as nat, 12);
        lemma_frac_bound(b as int, blen as nat);
    }
    Some(combine(a, b, scale, neg))
}

/// `±(a * 10^6 + b * scale)`.
fn combine(a: u64, b: u64, scale: u64, neg: bool) -> (r: i64)
    requires
        a < 1_000_000_000_000,
        b * scale < 1_000_000,
    ensures
        neg ==> r == -(a * 1_000_000 + b * scale),
        !neg ==> r == a * 1_000_000 + b * scale,
{
    proof {
        assert(a * 1_000_000 < 1_000_000_000_000_000_000) by (nonlinear_arith)
            requires
                a < 1_000_000_000_000,
        ;
    }
    let x: u64 = a * 1_000_000;
    let y: u64 = b * scale;
    let m: u64 = x + y;
    if neg { -(m as i64) } else { m as i64 }
}

/// Reads a field; see `classify`.
pub fn read_field(f: &Vec<char>) -> (r: Value)
    ensures
        r@ == classify(f@),
{
    if f.len() == 0 {
        return Value::Null;
    }
    if let Some(b) = read_bool(f) {
        return Value::Bool(b);
    }
    if let Some(v) = read_int(f) {
        return Value::Int(v);
    }
    if let Some(m) = read_float(f) {
        return Value::Float(m);
    }
    Value::Str(copy_chars(f))
}

/// Decimal digits of `n`.
pub open spec fn decimal(n: nat) -> Seq<char>
    decreases n,
{
    if n < 10 {
        seq![digit_char((n % 10) as nat)]
    } else {
        decimal(n / 10).push(digit_char((n % 10) as nat))
    }
}

pub open spec fn digit_char(d: nat) -> char {
    if d == 0 { '0' } else if d == 1 { '1' } else if d == 2 { '2' } else if d == 3 { '3' } else if d == 4 { '4' }
    else if d == 5 { '5' } else if d == 6 { '6' } else if d == 7 { '7' } else if d == 8 { '8' } else { '9' }
}

fn digit(d: u64) -> (r: char)
    requires
        d < 10,
    ensures
        r == digit_char(d as nat),
{
    if d == 0 { '0' } else if d == 1 { '1' } else if d == 2 { '2' } else if d == 3 { '3' } else if d == 4 { '4' }
    else if d == 5 { '5' } else if d == 6 { '6' } else if d == 7 { '7' } else if d == 8 { '8' } else { '9' }
}

/// Appends the decimal digits of `n` to `out`.
pub fn push_decimal(out: &mut Vec<char>, n: u64)
    ensures
        final(out)@ == old(out)@ + decimal(n as nat),
    decreases n,
{
    if n >= 10 {
        push_decimal(out, n / 10);
    }
    out.push(digit(n % 10));
    proof {
        if n >= 10 {
            assert(old(out)@ + decimal(n as nat) =~= old(out)@ + decimal((n / 10) as nat) + seq![digit_char((n % 10) as nat)]);
        }
    }
}

/// Integers and decimals that a field reads as fit in 64 bits, with room to spare.
pub proof fn lemma_classify_range(s: Seq<char>)
    ensures
        classify(s) matches Cell::Int(v) ==> -1_000_000_000_000_000_000 < v < 1_000_000_000_000_000_000,
        classify(s) matches Cell::Float(m) ==> -2_000_000_000_000_000_000 < m < 2_000_000_000_000_000_000,
{
    lemma_pow10_18();
    let (u, neg) = unsigned_part(s);
    if all_digits(u) && u.len() <= 18 {
        lemma_digits_bound(u);
        lemma_pow10_mono(u.len(), 18);
    }
    reveal(float_text);
    if let Some(p) = dot_at(u) {
        let (a, b) = (u.take(p), u.skip(p + 1));
        if all_digits(a) && a.len() <= 12 && all_digits(b) && b.len() <= 6 {
            lemma_digits_bound(a);
            lemma_pow10_mono(a.len(), 12);
            lemma_digits_bound(b);
            lemma_frac_bound(digits_value(b), b.len());
            assert(digits_value(a) * SCALE < 1_000_000_000_000 * 1_000_000) by (nonlinear_arith)
                requires
                    digits_value(a) < 1_000_000_000_000,
                    SCALE == 1_000_000,
            ;
        }
    }
}

/// Where a left-to-right read of a CSV line stands: the fields done, the field
/// being read, whether a quoted section is open, and whether the last character
/// closed one.
pub struct FieldScan {
    pub done: Seq<Seq<char>>,
    pub cur: Seq<char>,
    pub quoted: bool,
    pub just_closed: bool,
}

/// One character of a CSV line. Inside quotes a comma is text and `"` closes the
/// quotes; outside, a comma ends the field and `"` opens quotes, and right after
/// closing quotes it also stands for one `"` (so `""` inside quotes is a quote).
pub open spec fn scan_step(st: FieldScan, c: char) -> FieldScan {
    if st.quoted {
        if c == '"' {
            FieldScan { quoted: false, just_closed: true, ..st }
        } else {
            FieldScan { cur: st.cur.push(c), just_closed: false, ..st }
        }
    } else if c == '"' {
        FieldScan {
            cur: if st.just_closed { st.cur.push('"') } else { st.cur },
            quoted: true,
            just_closed: false,
            ..st
        }
    } else if c == ',' {
        FieldScan { done: st.done.push(st.cur), cur: Seq::empty(), quoted: false, just_closed: false }
    } else {
        FieldScan { cur: st.cur.push(c), just_closed: false, ..st }
    }
}

pub open spec fn scan_line(s: Seq<char>) -> FieldScan
    decreases s.len(),
{
    if s.len() == 0 {
        FieldScan { done: Seq::empty(), cur: Seq::empty(), quoted: false, just_closed: false }
    } else {
        scan_step(scan_line(s.drop_last()), s.last())
    }
}

/// The fields of a CSV line, quotes removed.
pub open spec fn csv_fields(s: Seq<char>) -> Seq<Seq<char>> {
    scan_line(s).done.push(scan_line(s).cur)
}

/// Splits a CSV line into its fields; see `csv_fields`.
pub fn read_fields(s: &Vec<char>) -> (r: Vec<Vec<char>>)
    ensures
        r@.map_values(|p: Vec<char>| p@) == csv_fields(s@),
{
    let mut done: Vec<Vec<char>> = Vec::new();
    let mut cur: Vec<char> = Vec::new();
    let mut quoted = false;
    let mut just_closed = false;
    let mut i: usize = 0;
    proof {
        assert(s@.take(0) =~= Seq::<char>::empty());
        assert(done@.map_values(|p: Vec<char>| p@) =~= Seq::<Seq<char>>::empty());
    }
    while i < s.len()
        invariant
            i <= s.len(),
            scan_line(s@.take(i as int)) == (FieldScan {
                done: done@.map_values(|p: Vec<char>| p@),
                cur: cur@,
                quoted,
                just_closed,
            }),
        decreases s.len() - i,
    {
        proof {
            assert(s@.take(i + 1).drop_last() =~= s@.take(i as int));
            assert(s@.take(i + 1).last() == s@[i as int]);
        }
        let c = s[i];
        let ghost d0 = done@;
        if quoted {
            if c == '"' {
                quoted = false;
                just_closed = true;
            } else {
                cur.push(c);
                just_closed = false;
            }
        } else if c == '"' {
            if just_closed {
                cur.push('"');
            }
            quoted = true;
            just_closed = false;
        } else if c == ',' {
            let f = cur;
            done.push(f);
            cur = Vec::new();
            just_closed = false;
            proof {
                assert(done@.map_values(|p: Vec<char>| p@) =~= d0.map_values(|p: Vec<char>| p@).push(f@));
                assert(cur@ =~= Seq::<char>::empty());
            }
        } else {
            cur.push(c);
            just_closed = false;
        }
        i = i + 1;
    }
    proof {
        assert(s@.take(i as int) =~= s@);
    }
    let ghost d0 = done@;
    done.push(cur);
    proof {
        assert(done@.map_values(|p: Vec<char>| p@) =~= d0.map_values(|p: Vec<char>| p@).push(cur@));
    }
    done
}

} // verus!
