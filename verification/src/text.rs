//! Numbers as decimal text.
use vstd::prelude::*;
use vstd::string::StringExecFns;

verus! {

/// The character of the decimal digit `d`.
pub open spec fn digit(d: nat) -> char {
    if d == 0 {
        '0'
    } else if d == 1 {
        '1'
    } else if d == 2 {
        '2'
    } else if d == 3 {
        '3'
    } else if d == 4 {
        '4'
    } else if d == 5 {
        '5'
    } else if d == 6 {
        '6'
    } else if d == 7 {
        '7'
    } else if d == 8 {
        '8'
    } else {
        '9'
    }
}

/// The decimal numeral of `n`: its digits from the most significant down,
/// without leading zeros.
pub open spec fn decimal(n: nat) -> Seq<char>
    decreases n,
{
    if n < 10 {
        seq![digit(n)]
    } else {
        decimal(n / 10).push(digit(n % 10))
    }
}

/// The text of one decimal digit.
fn digit_text(d: u8) -> (text: &'static str)
    requires
        d < 10,
    ensures
        text@ == seq![digit(d as nat)],
{
    proof {
        reveal_strlit("0");
        reveal_strlit("1");
        reveal_strlit("2");
        reveal_strlit("3");
        reveal_strlit("4");
        reveal_strlit("5");
        reveal_strlit("6");
        reveal_strlit("7");
        reveal_strlit("8");
        reveal_strlit("9");
    }
    let text = if d == 0 {
        "0"
    } else if d == 1 {
        "1"
    } else if d == 2 {
        "2"
    } else if d == 3 {
        "3"
    } else if d == 4 {
        "4"
    } else if d == 5 {
        "5"
    } else if d == 6 {
        "6"
    } else if d == 7 {
        "7"
    } else if d == 8 {
        "8"
    } else {
        "9"
    };
    assert(text@ =~= seq![digit(d as nat)]);
    text
}

/// Appends the decimal numeral of `value` to `text`.
pub fn append_decimal(text: &mut String, value: u128)
    ensures
        final(text)@ == old(text)@ + decimal(value as nat),
{
    let mut digits: Vec<u8> = Vec::new();
    let mut rest = value;
    let ghost mut tail: Seq<char> = Seq::empty();
    while rest >= 10
        invariant
            decimal(value as nat) == decimal(rest as nat) + tail,
            tail.len() == digits.len(),
            forall|k: int| 0 <= k < digits.len() ==> (#[trigger] digits[k]) < 10,
            forall|k: int|
                0 <= k < digits.len() ==> tail[k] == digit(digits[digits.len() - 1 - k] as nat),
        decreases rest,
    {
        let d = (rest % 10) as u8;
        proof {
            assert(decimal((rest / 10) as nat).push(digit(d as nat)) + tail =~= decimal(
                (rest / 10) as nat,
            ) + (seq![digit(d as nat)] + tail));
            tail = seq![digit(d as nat)] + tail;
        }
        digits.push(d);
        rest = rest / 10;
    }
    let d = rest as u8;
    proof {
        assert(seq![digit(d as nat)] + tail =~= decimal(rest as nat) + tail);
        tail = seq![digit(d as nat)] + tail;
    }
    digits.push(d);
    let mut k: usize = digits.len();
    while k > 0
        invariant
            k <= digits.len(),
            tail.len() == digits.len(),
            forall|l: int| 0 <= l < digits.len() ==> (#[trigger] digits[l]) < 10,
            forall|l: int|
                0 <= l < digits.len() ==> tail[l] == digit(digits[digits.len() - 1 - l] as nat),
            text@ == old(text)@ + tail.take(digits.len() - k),
        decreases k,
    {
        k -= 1;
        text.append(digit_text(digits[k]));
        proof {
            assert(tail.take(digits.len() - k) =~= tail.take(digits.len() - k - 1) + seq![
                digit(digits[k as int] as nat),
            ]);
        }
    }
    proof {
        assert(tail.take(digits.len() as int) =~= tail);
    }
}

/// Two digits with the same character are the same digit.
pub proof fn lemma_digit_injective(a: nat, b: nat)
    requires
        a < 10,
        b < 10,
        digit(a) == digit(b),
    ensures
        a == b,
{
    assert(digit(a) as u32 == 48 + a);
    assert(digit(b) as u32 == 48 + b);
}

/// Two numbers with the same decimal numeral are the same number.
pub proof fn lemma_decimal_injective(a: nat, b: nat)
    requires
        decimal(a) == decimal(b),
    ensures
        a == b,
    decreases a,
{
    if a < 10 && b < 10 {
        assert(decimal(a) == seq![digit(a)]);
        assert(decimal(b) == seq![digit(b)]);
        assert(seq![digit(a)][0] == digit(a));
        assert(seq![digit(b)][0] == digit(b));
        lemma_digit_injective(a, b);
    } else if a >= 10 && b >= 10 {
        let front_a = decimal(a / 10);
        let front_b = decimal(b / 10);
        assert(front_a =~= decimal(a).drop_last());
        assert(front_b =~= decimal(b).drop_last());
        assert(decimal(a).last() == digit(a % 10));
        assert(decimal(b).last() == digit(b % 10));
        lemma_decimal_injective(a / 10, b / 10);
        lemma_digit_injective(a % 10, b % 10);
    } else {
        if a >= 10 {
            lemma_decimal_len(a / 10);
        } else {
            lemma_decimal_len(b / 10);
        }
        assert(decimal(a).len() == decimal(b).len());
    }
}

/// A decimal numeral has at least one digit.
pub proof fn lemma_decimal_len(n: nat)
    ensures
        decimal(n).len() >= 1,
    decreases n,
{
    if n >= 10 {
        lemma_decimal_len(n / 10);
    }
}

} // verus!
