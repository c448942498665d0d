//! Checks on the numbers given on the command line.
use vstd::prelude::*;

verus! {

pub open spec fn is_digit(b: u8) -> bool {
    48 <= b <= 57
}

/// The number that a run of decimal digits spells.
pub open spec fn decimal_value(d: Seq<u8>) -> int
    decreases d.len(),
{
    if d.len() == 0 {
        0
    } else {
        decimal_value(d.drop_last()) * 10 + (d.last() - 48)
    }
}

/// The digits of a number written with or without a leading `+`.
pub open spec fn unsigned_digits(b: Seq<u8>) -> Seq<u8> {
    if b.len() > 0 && b[0] == 43 {
        b.skip(1)
    } else {
        b
    }
}

/// The text is an unsigned 64-bit integer in decimal: an optional `+`, then at least one
/// digit and nothing else, for a value that fits in 64 bits.
pub open spec fn parses_as_u64(b: Seq<u8>) -> bool {
    let d = unsigned_digits(b);
    &&& d.len() > 0
    &&& forall|i: int| 0 <= i < d.len() ==> is_digit(#[trigger] d[i])
    &&& decimal_value(d) <= u64::MAX
}

proof fn lemma_value_grows(d: Seq<u8>, k: int)
    requires
        0 <= k <= d.len(),
        forall|i: int| 0 <= i < d.len() ==> is_digit(#[trigger] d[i]),
    ensures
        decimal_value(d.take(k)) <= decimal_value(d),
        0 <= decimal_value(d),
    decreases d.len(),
{
    if d.len() > 0 {
        let p = d.drop_last();
        if k == d.len() {
            assert(d.take(k) == d);
            lemma_value_grows(p, 0);
        } else {
            lemma_value_grows(p, k);
            assert(d.take(k) == p.take(k));
        }
    }
}

/// `Ok` when `v` is an unsigned 64-bit integer in decimal, else an error that says so.
pub fn is_int(v: String) -> (r: Result<(), String>)
    ensures
        r.is_ok() == parses_as_u64(vstd::utf8::encode_utf8(v@)),
        r matches Err(e) ==> e@ == "Value must be an integer"@,
{
    let b = v.as_str().as_bytes();
    let start: usize = if b.len() > 0 && b[0] == 43 { 1 } else { 0 };
    let ghost d = unsigned_digits(b@);
    let mut acc: u64 = 0;
    let mut i: usize = start;
    let mut ok: bool = b.len() > start;
    while ok && i < b.len()
        invariant
            start <= i <= b@.len(),
            d == b@.skip(start as int),
            d == unsigned_digits(b@),
            ok ==> acc == decimal_value(d.take(i - start)),
            ok ==> forall|j: int| 0 <= j < i - start ==> is_digit(#[trigger] d[j]),
            ok ==> d.len() > 0,
            !ok ==> !parses_as_u64(b@),
        decreases b@.len() - i + if ok { 1int } else { 0int },
    {
        let c = b[i];
        let k = i - start;
        assert(d.take(k + 1).drop_last() == d.take(k as int));
        assert(d[k as int] == c);
        assert(d.take(k + 1).last() == c);
        if c < 48 || c > 57 {
            ok = false;
        } else if acc > (u64::MAX - (c - 48) as u64) / 10 {
            proof {
                let m = (u64::MAX - (c - 48) as u64) as int;
                vstd::arithmetic::div_mod::lemma_fundamental_div_mod(m, 10);
                assert(acc * 10 + (c - 48) > u64::MAX) by (nonlinear_arith)
                    requires
                        acc >= m / 10 + 1,
                        m == 10 * (m / 10) + m % 10,
                        m % 10 < 10,
                        m == u64::MAX - (c - 48),
                ;
                assert(decimal_value(d.take(k + 1)) > u64::MAX);
                if forall|j: int| 0 <= j < d.len() ==> is_digit(#[trigger] d[j]) {
                    lemma_value_grows(d, k + 1);
                }
            }
            ok = false;
        } else {
            proof {
                let m = (u64::MAX - (c - 48) as u64) as int;
                vstd::arithmetic::div_mod::lemma_fundamental_div_mod(m, 10);
                assert(acc * 10 + (c - 48) <= u64::MAX) by (nonlinear_arith)
                    requires
                        acc <= m / 10,
                        m == 10 * (m / 10) + m % 10,
                        m % 10 >= 0,
                        m == u64::MAX - (c - 48),
                ;
            }
            acc = acc * 10 + (c - 48) as u64;
            i = i + 1;
        }
    }
    if ok {
        assert(d.take(i - start) == d);
        Ok(())
    } else {
        Err("Value must be an integer".to_owned())
    }
}

} // verus!
