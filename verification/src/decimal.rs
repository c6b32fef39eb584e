//! Decimal notation for the textual form of field elements.
use vstd::prelude::*;

verus! {

/// The character of a decimal digit.
pub open spec fn digit_char(d: nat) -> char {
    (48 + d) as char
}

/// The decimal notation of `n`, most significant digit first, without leading zeros.
pub open spec fn decimal(n: nat) -> Seq<char>
    decreases n,
{
    if n < 10 {
        seq![digit_char(n)]
    } else {
        decimal(n / 10).push(digit_char(n % 10))
    }
}

/// The one-character text of a decimal digit.
fn digit_str(d: u64) -> (s: &'static str)
    requires
        d < 10,
    ensures
        s@ == seq![digit_char(d as nat)],
{
    proof {
        reveal_strlit("0");
        reveal_strlit("1");
        reveal_strlit("2");
        reveal_strlit("3");
        reveal_strlit("4");
        reveal_strlit("5");
        reveal_strlit("6");
        reveal_strlit("7");
        reveal_strlit("8");
        reveal_strlit("9");
    }
    match d {
        0 => "0",
        1 => "1",
        2 => "2",
        3 => "3",
        4 => "4",
        5 => "5",
        6 => "6",
        7 => "7",
        8 => "8",
        _ => "9",
    }
}

/// The decimal notation of `n`: its digits are taken off from the least significant
/// one up, then written out from the most significant one down.
pub(crate) fn decimal_string(n: u64) -> (s: String)
    ensures
        s@ == decimal(n as nat),
{
    // digits, least significant first
    let mut digits: Vec<u64> = Vec::new();
    let mut m = n;
    let ghost mut tail: Seq<char> = Seq::empty();
    while m >= 10
        invariant
            decimal(n as nat) == decimal(m as nat) + tail,
            tail.len() == digits.len(),
            forall|j: int| 0 <= j < digits.len() ==> #[trigger] digits@[j] < 10,
            forall|j: int|
                0 <= j < tail.len() ==> #[trigger] tail[j] == digit_char(
                    digits@[digits.len() - 1 - j] as nat,
                ),
        decreases m,
    {
        let d = m % 10;
        proof {
            let t2 = seq![digit_char(d as nat)] + tail;
            assert(decimal(m as nat) == decimal((m / 10) as nat).push(digit_char(d as nat)));
            assert(decimal((m / 10) as nat).push(digit_char(d as nat)) + tail =~= decimal(
                (m / 10) as nat,
            ) + t2);
            tail = t2;
        }
        digits.push(d);
        m = m / 10;
    }
    proof {
        tail = seq![digit_char(m as nat)] + tail;
    }
    digits.push(m);
    let total = digits.len();
    assert(decimal(n as nat) =~= tail);
    let mut s = String::new();
    let mut k: usize = 0;
    while k < total
        invariant
            total == digits.len(),
            k <= total,
            tail == decimal(n as nat),
            tail.len() == total,
            forall|j: int| 0 <= j < digits.len() ==> #[trigger] digits@[j] < 10,
            forall|j: int|
                0 <= j < tail.len() ==> #[trigger] tail[j] == digit_char(
                    digits@[digits.len() - 1 - j] as nat,
                ),
            s@ == tail.take(k as int),
        decreases total - k,
    {
        let c = digit_str(digits[total - 1 - k]);
        s.append(c);
        proof {
            assert(tail.take(k as int) + seq![tail[k as int]] =~= tail.take(k + 1));
        }
        k += 1;
    }
    assert(tail.take(total as int) =~= tail);
    s
}

/// The number that a string of decimal digits denotes, read most significant first:
/// each character contributes its distance from `'0'`.
pub open spec fn digits_value(s: Seq<char>) -> int
    decreases s.len(),
{
    if s.len() == 0 {
        0
    } else {
        digits_value(s.drop_last()) * 10 + ((s.last() as int) - ('0' as int))
    }
}

/// Decimal notation is the usual base-ten notation: it is a nonempty string of the
/// characters `'0'` to `'9'`, it starts with `'0'` only for zero itself, and reading
/// it back as base-ten digits gives the number.
pub proof fn lemma_decimal_is_base_ten(n: nat)
    ensures
        decimal(n).len() >= 1,
        forall|i: int|
            0 <= i < decimal(n).len() ==> ('0' as int) <= (#[trigger] decimal(n)[i] as int) <= (
            '9' as int),
        n > 0 ==> decimal(n)[0] != '0',
        digits_value(decimal(n)) == n,
    decreases n,
{
    if n < 10 {
        let s = decimal(n);
        assert(s.drop_last() =~= Seq::<char>::empty());
        assert(s.last() as int == 48 + n);
        assert(digits_value(s) == digits_value(s.drop_last()) * 10 + n);
    } else {
        let q = n / 10;
        let d = n % 10;
        lemma_decimal_is_base_ten(q);
        let s = decimal(n);
        assert(s.drop_last() =~= decimal(q));
        assert(s.last() as int == 48 + d);
        vstd::arithmetic::div_mod::lemma_fundamental_div_mod(n as int, 10);
        assert(digits_value(s) == digits_value(decimal(q)) * 10 + d);
        assert forall|i: int|
            0 <= i < s.len() implies ('0' as int) <= (#[trigger] s[i] as int) <= ('9' as int) by {
            if i < s.len() - 1 {
                assert(s[i] == decimal(q)[i]);
            }
        }
        assert(s[0] == decimal(q)[0]);
    }
}

/// Appending a digit multiplies by ten and adds it: for a positive `n` and a digit `d`,
/// the notation of `10 n + d` is that of `n` followed by the character of `d`.
pub proof fn lemma_decimal_append_digit(n: nat, d: nat)
    requires
        n > 0,
        d < 10,
    ensures
        decimal(10 * n + d) == decimal(n).push(digit_char(d)),
{
    assert((10 * n + d) / 10 == n);
    assert((10 * n + d) % 10 == d);
}

/// The strings of `list` joined, with `sep` between each two.
pub open spec fn join(list: Seq<Seq<char>>, sep: Seq<char>) -> Seq<char>
    decreases list.len(),
{
    if list.len() == 0 {
        Seq::empty()
    } else if list.len() == 1 {
        list[0]
    } else {
        join(list.drop_last(), sep) + sep + list.last()
    }
}

} // verus!
