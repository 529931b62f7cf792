//! Numbers as text: what is written is read back.
use crate::display;
use crate::errors;
use crate::shades;
use crate::single::Single;
use crate::text;
use vstd::arithmetic::div_mod;
use vstd::prelude::*;

verus! {

/// The decimal digits of a number write that number, with no zero in front.
pub proof fn law_digits_write_number(n: nat)
    ensures
        text::all_digits(text::digits(n)),
        text::number(text::digits(n)) == n,
        text::digits(n).len() > 1 ==> text::digits(n)[0] != '0',
    decreases n,
{
    let s = text::digits(n);
    if n < 10 {
        assert(s.drop_last().len() == 0);
        assert(text::number(s.drop_last()) == 0);
        assert(s.last() as int == n + 48);
    } else {
        let m = n / 10;
        law_digits_write_number(m);
        let rest = text::digits(m);
        assert(s.drop_last() =~= rest);
        assert(s.last() as int == n % 10 + 48);
        assert forall|i: int| 0 <= i < s.len() implies text::digit(#[trigger] s[i]) by {
            if i < rest.len() {
                assert(s[i] == rest[i]);
            }
        }
        assert(s[0] == rest[0]);
        if m < 10 {
            assert(rest[0] as int == m + 48);
        } else {
            law_digits_write_number(m / 10);
            assert(rest.len() > 1);
        }
    }
}

/// A whole number is written with a minus sign exactly where it is below zero, and then
/// its digits.
pub proof fn law_decimal_writes_number(n: int)
    ensures
        n >= 0 ==> text::all_digits(text::decimal(n)) && text::number(text::decimal(n)) == n,
        n < 0 ==> text::decimal(n)[0] == '-' && text::all_digits(text::decimal(n).skip(1))
            && text::number(text::decimal(n).skip(1)) == -n,
{
    if n >= 0 {
        law_digits_write_number(n as nat);
    } else {
        law_digits_write_number((-n) as nat);
        assert(text::decimal(n).skip(1) =~= text::digits((-n) as nat));
    }
}

/// A number with its sign always written: a plus from zero up, a minus below.
pub proof fn law_signed_writes_number(n: int)
    ensures
        text::signed(n).len() > 1,
        n >= 0 ==> text::signed(n)[0] == '+',
        n < 0 ==> text::signed(n)[0] == '-',
        text::all_digits(text::signed(n).skip(1)),
        text::number(text::signed(n).skip(1)) == if n < 0 {
            -n
        } else {
            n
        },
{
    law_digits_write_number((if n < 0 {
        -n
    } else {
        n
    }) as nat);
    if n >= 0 {
        assert(text::signed(n).skip(1) =~= text::digits(n as nat));
    } else {
        assert(text::signed(n).skip(1) =~= text::digits((-n) as nat));
    }
}

/// The last digits of a number that has no more write it, with zeros in front.
pub proof fn law_last_digits_write_number(n: nat, places: nat)
    requires
        n < display::tens(places),
    ensures
        text::last_digits(n, places).len() == places,
        forall|i: int| 0 <= i < places ==> text::digit(#[trigger] text::last_digits(n, places)[i]),
        text::number(text::last_digits(n, places)) == n,
    decreases places,
{
    let s = text::last_digits(n, places);
    if places > 0 {
        let p = (places - 1) as nat;
        law_last_digits_write_number(n / 10, p);
        let rest = text::last_digits(n / 10, p);
        assert(s.drop_last() =~= rest);
        assert(s.last() as int == n % 10 + 48);
        assert forall|i: int| 0 <= i < places implies text::digit(#[trigger] s[i]) by {
            if i < p {
                assert(s[i] == rest[i]);
            }
        }
    }
}

/// The steps of a value lie within half a step of it.
proof fn lemma_steps(x: Single, places: nat)
    requires
        x.finite(),
    ensures
        errors::near(
            2 * (display::steps(x, places) * errors::big()),
            (2 * (x.units() * display::tens(places))) as int,
            errors::big(),
        ),
{
    let b = errors::big();
    shades::lemma_grains();
    let n = (x.units() * display::tens(places)) as int;
    div_mod::lemma_fundamental_div_mod(n, b);
    let q = n / b;
    let r = display::steps(x, places) as int;
    assert(q * b == b * q && (q + 1) * b == b * q + b) by (nonlinear_arith);
    assert(r == q || r == q + 1);
}

/// A finite value is written as a minus sign where it is negative, the digits of a whole
/// number, a point, and so many digits behind it. Read as one number, the digits lie
/// within half a step of the last place of the value's size.
pub proof fn law_fixed_writes_value(x: Single, places: nat)
    requires
        x.finite(),
    ensures
        exists|head: Seq<char>, tail: Seq<char>|
            {
                let sign = if x.negative() {
                    seq!['-']
                } else {
                    Seq::empty()
                };
                &&& display::fixed(x, places) == sign + (#[trigger] (head + seq!['.'] + tail))
                &&& text::all_digits(head)
                &&& tail.len() == places
                &&& forall|i: int| 0 <= i < places ==> text::digit(#[trigger] tail[i])
                &&& errors::near(
                    2 * ((text::number(head) * display::tens(places) + text::number(tail))
                        * errors::big()),
                    (2 * (x.units() * display::tens(places))) as int,
                    errors::big(),
                )
            },
{
    let t = display::tens(places);
    let n = display::steps(x, places);
    lemma_tens(places);
    div_mod::lemma_fundamental_div_mod(n as int, t as int);
    let (q, r) = (n / t, n % t);
    let (head, tail) = (text::digits(q), text::last_digits(r, places));
    law_digits_write_number(q);
    law_last_digits_write_number(r, places);
    lemma_steps(x, places);
    assert(q * t == t * q) by (nonlinear_arith);
    assert(text::number(head) * t + text::number(tail) == n);
    assert(display::fixed(x, places) == (if x.negative() {
        seq!['-']
    } else {
        Seq::empty()
    }) + (head + seq!['.'] + tail));
}

proof fn lemma_tens(places: nat)
    ensures
        display::tens(places) > 0,
    decreases places,
{
    if places > 0 {
        lemma_tens((places - 1) as nat);
    }
}

} // verus!
