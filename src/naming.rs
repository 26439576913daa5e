//! Decimal and date texts used in output paths.
use vstd::prelude::*;

verus! {

/// The decimal digits of `n`, without leading zeros ("0" for zero).
pub open spec fn spec_decimal(n: nat) -> Seq<char>
    decreases n,
{
    if n < 10 {
        seq![digit_char(n)]
    } else {
        spec_decimal(n / 10).push(digit_char(n % 10))
    }
}

/// The ASCII digit of a value below ten.
pub open spec fn digit_char(d: nat) -> char {
    if d == 0 { '0' } else if d == 1 { '1' } else if d == 2 { '2' } else if d == 3 { '3' } else if d == 4 { '4' }
    else if d == 5 { '5' } else if d == 6 { '6' } else if d == 7 { '7' } else if d == 8 { '8' } else { '9' }
}

fn digit_char_exec(d: u64) -> (r: char)
    requires
        d < 10,
    ensures
        r == digit_char(d as nat),
{
    if d == 0 { '0' } else if d == 1 { '1' } else if d == 2 { '2' } else if d == 3 { '3' } else if d == 4 { '4' }
    else if d == 5 { '5' } else if d == 6 { '6' } else if d == 7 { '7' } else if d == 8 { '8' } else { '9' }
}

/// `s` preceded by zeros up to `width` characters.
pub open spec fn zero_pad(s: Seq<char>, width: nat) -> Seq<char> {
    if s.len() >= width {
        s
    } else {
        Seq::new((width - s.len()) as nat, |i: int| '0') + s
    }
}

/// The decimal text of `n`.
pub fn decimal(n: u64) -> (r: Vec<char>)
    ensures
        r@ == spec_decimal(n as nat),
    decreases n,
{
    if n < 10 {
        let mut r: Vec<char> = Vec::new();
        r.push(digit_char_exec(n));
        r
    } else {
        let mut r = decimal(n / 10);
        r.push(digit_char_exec(n % 10));
        r
    }
}

/// The decimal text of `n`, zero-padded to `width` characters.
pub fn padded(n: u64, width: usize) -> (r: Vec<char>)
    ensures
        r@ == zero_pad(spec_decimal(n as nat), width as nat),
{
    let d = decimal(n);
    if d.len() >= width {
        return d;
    }
    let mut r: Vec<char> = Vec::new();
    let fill = width - d.len();
    let mut i: usize = 0;
    while i < fill
        invariant
            i <= fill,
            r@ == Seq::new(i as nat, |k: int| '0'),
        decreases fill - i,
    {
        r.push('0');
        i += 1;
        proof {
            assert(r@ =~= Seq::new(i as nat, |k: int| '0'));
        }
    }
    let mut k: usize = 0;
    while k < d.len()
        invariant
            k <= d@.len(),
            r@ == Seq::new(fill as nat, |x: int| '0') + d@.subrange(0, k as int),
        decreases d@.len() - k,
    {
        r.push(d[k]);
        k += 1;
        proof {
            assert(r@ =~= Seq::new(fill as nat, |x: int| '0') + d@.subrange(0, k as int));
        }
    }
    assert(d@.subrange(0, d@.len() as int) =~= d@);
    r
}

/// A year as chrono's `%Y` writes it: four digits, zero-padded, with a sign
/// outside 0 to 9999.
pub open spec fn spec_year_text(y: int) -> Seq<char> {
    if 0 <= y <= 9999 {
        zero_pad(spec_decimal(y as nat), 4)
    } else if y < 0 {
        seq!['-'] + zero_pad(spec_decimal((-y) as nat), 4)
    } else {
        seq!['+'] + spec_decimal(y as nat)
    }
}

/// The year text of a date-time.
pub fn year_text(y: i32) -> (r: Vec<char>)
    ensures
        r@ == spec_year_text(y as int),
{
    if 0 <= y && y <= 9999 {
        padded(y as u64, 4)
    } else if y < 0 {
        let mut r: Vec<char> = Vec::new();
        r.push('-');
        let mag: u64 = (-(y as i64)) as u64;
        let p = padded(mag, 4);
        let mut k: usize = 0;
        while k < p.len()
            invariant
                k <= p@.len(),
                r@ == seq!['-'] + p@.subrange(0, k as int),
            decreases p@.len() - k,
        {
            r.push(p[k]);
            k += 1;
            proof {
                assert(r@ =~= seq!['-'] + p@.subrange(0, k as int));
            }
        }
        assert(p@.subrange(0, p@.len() as int) =~= p@);
        r
    } else {
        let mut r: Vec<char> = Vec::new();
        r.push('+');
        let p = decimal(y as u64);
        let mut k: usize = 0;
        while k < p.len()
            invariant
                k <= p@.len(),
                r@ == seq!['+'] + p@.subrange(0, k as int),
            decreases p@.len() - k,
        {
            r.push(p[k]);
            k += 1;
            proof {
                assert(r@ =~= seq!['+'] + p@.subrange(0, k as int));
            }
        }
        assert(p@.subrange(0, p@.len() as int) =~= p@);
        r
    }
}


/// A decimal text has at least one digit.
pub proof fn lemma_decimal_nonempty(n: nat)
    ensures
        spec_decimal(n).len() >= 1,
    decreases n,
{
    if n >= 10 {
        lemma_decimal_nonempty(n / 10);
    }
}

/// Different numbers have different decimal texts.
pub proof fn lemma_decimal_injective(a: nat, b: nat)
    requires
        spec_decimal(a) == spec_decimal(b),
    ensures
        a == b,
    decreases a,
{
    if a < 10 && b < 10 {
        assert(spec_decimal(a)[0] == digit_char(a));
        assert(spec_decimal(b)[0] == digit_char(b));
    } else if a < 10 {
        lemma_decimal_nonempty(b / 10);
        assert(spec_decimal(b).len() >= 2);
    } else if b < 10 {
        lemma_decimal_nonempty(a / 10);
        assert(spec_decimal(a).len() >= 2);
    } else {
        let da = spec_decimal(a);
        let db = spec_decimal(b);
        assert(da.last() == digit_char(a % 10));
        assert(db.last() == digit_char(b % 10));
        assert(da.drop_last() =~= spec_decimal(a / 10));
        assert(db.drop_last() =~= spec_decimal(b / 10));
        lemma_decimal_injective(a / 10, b / 10);
        assert(a % 10 == b % 10);
    }
}

} // verus!
