//! Decimal text of unsigned integers.
use vstd::prelude::*;

verus! {

pub open spec fn digit_char(d: nat) -> char {
    if d == 1 {
        '1'
    } else if d == 2 {
        '2'
    } else if d == 3 {
        '3'
    } else if d == 4 {
        '4'
    } else if d == 5 {
        '5'
    } else if d == 6 {
        '6'
    } else if d == 7 {
        '7'
    } else if d == 8 {
        '8'
    } else if d == 9 {
        '9'
    } else {
        '0'
    }
}

pub open spec fn chars_of(ds: Seq<u32>) -> Seq<char> {
    ds.map_values(|d: u32| digit_char(d as nat))
}

/// The decimal digits of `n`, without leading zeros.
pub open spec fn digits(n: nat) -> Seq<char>
    decreases n,
{
    if n < 10 {
        seq![digit_char(n)]
    } else {
        digits(n / 10).push(digit_char(n % 10))
    }
}

pub proof fn lemma_digits_are_digits(n: nat)
    ensures
        digits(n).len() >= 1,
        forall|i: int| 0 <= i < digits(n).len() ==> '0' <= #[trigger] digits(n)[i] <= '9',
        n >= 10 ==> digits(n).len() >= 2,
    decreases n,
{
    if n >= 10 {
        lemma_digits_are_digits(n / 10);
        let p = digits(n / 10);
        assert forall|i: int| 0 <= i < digits(n).len() implies '0' <= #[trigger] digits(n)[i]
            <= '9' by {
            if i < p.len() {
                assert(digits(n)[i] == p[i]);
            }
        }
    }
}

/// Different numbers have different decimal digits.
pub proof fn lemma_digits_injective(a: nat, b: nat)
    requires
        digits(a) == digits(b),
    ensures
        a == b,
    decreases a,
{
    lemma_digits_are_digits(a);
    lemma_digits_are_digits(b);
    if a < 10 && b < 10 {
        assert(digits(a) == seq![digit_char(a)]);
        assert(digits(b) == seq![digit_char(b)]);
        assert(seq![digit_char(a)][0] == digit_char(a));
        assert(seq![digit_char(b)][0] == digit_char(b));
    } else if a >= 10 && b >= 10 {
        let (da, db) = (digits(a), digits(b));
        assert(da.last() == db.last());
        assert(da.drop_last() == digits(a / 10));
        assert(db.drop_last() == digits(b / 10));
        lemma_digits_injective(a / 10, b / 10);
        assert(digit_char(a % 10) == digit_char(b % 10));
        assert(a % 10 == b % 10);
        assert(a == (a / 10) * 10 + a % 10) by (nonlinear_arith);
        assert(b == (b / 10) * 10 + b % 10) by (nonlinear_arith);
    } else {
        assert(digits(a).len() != digits(b).len());
        assert(false);
    }
}

fn digit_str(d: u32) -> (r: &'static str)
    requires
        d < 10,
    ensures
        r@ == seq![digit_char(d as nat)],
{
    let r = match d {
        0 => "0",
        1 => "1",
        2 => "2",
        3 => "3",
        4 => "4",
        5 => "5",
        6 => "6",
        7 => "7",
        8 => "8",
        _ => "9",
    };
    proof {
        reveal_strlit("0");
        reveal_strlit("1");
        reveal_strlit("2");
        reveal_strlit("3");
        reveal_strlit("4");
        reveal_strlit("5");
        reveal_strlit("6");
        reveal_strlit("7");
        reveal_strlit("8");
        reveal_strlit("9");
        assert(r@ =~= seq![digit_char(d as nat)]);
    }
    r
}

/// The decimal text of `n`.
pub fn decimal(n: u32) -> (r: String)
    ensures
        r@ == digits(n as nat),
{
    let mut rev: Vec<u32> = Vec::new();
    let mut m: u32 = n;
    loop
        invariant_except_break
            digits(n as nat) == digits(m as nat) + chars_of(rev@).reverse(),
        invariant
            forall|k: int| 0 <= k < rev@.len() ==> rev@[k] < 10,
        ensures
            digits(n as nat) == chars_of(rev@).reverse(),
            forall|k: int| 0 <= k < rev@.len() ==> rev@[k] < 10,
        decreases m,
    {
        let d = m % 10;
        let ghost old_rev = rev@;
        let ghost c = digit_char(d as nat);
        rev.push(d);
        proof {
            assert(chars_of(rev@).reverse() =~= seq![c] + chars_of(old_rev).reverse());
        }
        if m < 10 {
            assert(digits(m as nat) == seq![c]);
            assert(digits(n as nat) =~= chars_of(rev@).reverse());
            break;
        }
        proof {
            assert(digits(m as nat) == digits((m / 10) as nat).push(c));
            assert(digits(n as nat) =~= digits((m / 10) as nat) + chars_of(rev@).reverse());
        }
        m = m / 10;
    }
    let mut out = String::new();
    let mut i: usize = rev.len();
    while i > 0
        invariant
            i <= rev@.len(),
            out@ == chars_of(rev@).reverse().subrange(0, (rev@.len() - i) as int),
            forall|k: int| 0 <= k < rev@.len() ==> rev@[k] < 10,
        decreases i,
    {
        i = i - 1;
        out.append(digit_str(rev[i]));
        assert(out@ =~= chars_of(rev@).reverse().subrange(0, (rev@.len() - i) as int));
    }
    assert(chars_of(rev@).reverse().subrange(0, rev@.len() as int) == chars_of(rev@).reverse());
    out
}

} // verus!
