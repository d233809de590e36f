//! Decimal numerals: the value of a digit string and the canonical
//! digit string of a value, with the round-trip lemmas between them.

use vstd::prelude::*;

verus! {

use crate::chemistry::{all_digit_chars, is_digit_char};

/// Numeric value of one decimal digit character.
pub open spec fn digit_val(c: char) -> nat {
    (c as int - '0' as int) as nat
}

/// Base-10 value of a digit string (most significant digit first).
pub open spec fn digits_value(s: Seq<char>) -> nat
    decreases s.len(),
{
    if s.len() == 0 {
        0
    } else {
        digits_value(s.drop_last()) * 10 + digit_val(s.last())
    }
}

/// The digit character of a value below ten.
pub open spec fn digit_char(d: nat) -> char {
    if d == 0 {
        '0'
    } else if d == 1 {
        '1'
    } else if d == 2 {
        '2'
    } else if d == 3 {
        '3'
    } else if d == 4 {
        '4'
    } else if d == 5 {
        '5'
    } else if d == 6 {
        '6'
    } else if d == 7 {
        '7'
    } else if d == 8 {
        '8'
    } else {
        '9'
    }
}

/// Canonical decimal rendering of a value: no leading zeros, and `0` for zero.
pub open spec fn render_digits(n: nat) -> Seq<char>
    decreases n,
{
    if n < 10 {
        seq![digit_char(n)]
    } else {
        render_digits(n / 10) + seq![digit_char(n % 10)]
    }
}

/// Appending one digit multiplies the value by ten and adds the digit.
pub proof fn lemma_digits_value_push(s: Seq<char>, c: char)
    ensures
        digits_value(s + seq![c]) == digits_value(s) * 10 + digit_val(c),
{
    assert((s + seq![c]).drop_last() =~= s);
    assert((s + seq![c]).last() == c);
}

/// The value of a prefix never exceeds the value of the whole digit string.
pub proof fn lemma_digits_value_prefix(s: Seq<char>, i: int)
    requires
        0 <= i <= s.len(),
    ensures
        digits_value(s.take(i)) <= digits_value(s),
    decreases s.len(),
{
    if i == s.len() {
        assert(s.take(i) =~= s);
    } else {
        assert(s.drop_last().take(i) =~= s.take(i));
        lemma_digits_value_prefix(s.drop_last(), i);
    }
}

/// Reading one more digit of a string extends its value by that digit.
pub proof fn lemma_digits_value_take_succ(s: Seq<char>, i: int)
    requires
        0 <= i < s.len(),
    ensures
        digits_value(s.take(i + 1)) == digits_value(s.take(i)) * 10 + digit_val(s[i]),
{
    assert(s.take(i + 1).drop_last() =~= s.take(i));
    assert(s.take(i + 1).last() == s[i]);
}

/// A digit string without a leading zero has a positive value.
pub proof fn lemma_digits_value_positive(s: Seq<char>)
    requires
        s.len() >= 1,
        all_digit_chars(s),
        s[0] != '0',
    ensures
        digits_value(s) >= 1,
    decreases s.len(),
{
    if s.len() == 1 {
        assert(digit_val(s[0]) >= 1);
    } else {
        lemma_digits_value_positive(s.drop_last());
    }
}

/// Rendering a value and reading it back yields the value again.
pub proof fn lemma_value_of_render(n: nat)
    ensures
        digits_value(render_digits(n)) == n,
    decreases n,
{
    if n < 10 {
        assert(seq![digit_char(n)] =~= Seq::<char>::empty() + seq![digit_char(n)]);
        lemma_digits_value_push(Seq::<char>::empty(), digit_char(n));
        assert(digit_val(digit_char(n)) == n);
    } else {
        lemma_value_of_render(n / 10);
        lemma_digits_value_push(render_digits(n / 10), digit_char(n % 10));
        assert(digit_val(digit_char(n % 10)) == n % 10);
    }
}

/// The canonical rendering consists of digits, is non-empty, and has no
/// leading zero unless the value itself is zero.
pub proof fn lemma_render_shape(n: nat)
    ensures
        render_digits(n).len() >= 1,
        all_digit_chars(render_digits(n)),
        n >= 1 ==> render_digits(n)[0] != '0',
    decreases n,
{
    if n < 10 {
    } else {
        lemma_render_shape(n / 10);
        assert forall|i: int| 0 <= i < render_digits(n).len() implies is_digit_char(
            #[trigger] render_digits(n)[i],
        ) by {
            if i < render_digits(n / 10).len() {
                assert(render_digits(n)[i] == render_digits(n / 10)[i]);
            } else {
                assert(render_digits(n)[i] == digit_char(n % 10));
            }
        }
        assert(render_digits(n)[0] == render_digits(n / 10)[0]);
    }
}

/// Reading a canonical digit string and rendering the value yields the
/// same string: rendering inverts parsing on digit strings without a
/// leading zero.
pub proof fn lemma_render_of_value(s: Seq<char>)
    requires
        s.len() >= 1,
        all_digit_chars(s),
        s[0] != '0',
    ensures
        render_digits(digits_value(s)) == s,
    decreases s.len(),
{
    if s.len() == 1 {
        assert(s =~= Seq::<char>::empty() + seq![s[0]]);
        lemma_digits_value_push(Seq::<char>::empty(), s[0]);
        assert(digits_value(s) == digit_val(s[0]));
        assert(digit_char(digit_val(s[0])) == s[0]);
        assert(render_digits(digits_value(s)) =~= s);
    } else {
        let d = s.drop_last();
        let n = digits_value(s);
        lemma_render_of_value(d);
        lemma_digits_value_positive(d);
        assert(digit_val(s.last()) < 10);
        assert(n == digits_value(d) * 10 + digit_val(s.last()));
        assert(n / 10 == digits_value(d) && n % 10 == digit_val(s.last())) by (nonlinear_arith)
            requires
                n == digits_value(d) * 10 + digit_val(s.last()),
                digit_val(s.last()) < 10,
        ;
        assert(n >= 10);
        assert(digit_char(digit_val(s.last())) == s.last());
        assert(render_digits(n) =~= d + seq![s.last()]);
        assert(d + seq![s.last()] =~= s);
    }
}

/// Parses the digit characters `s[from..to]` as a base-10 `u32`;
/// `None` exactly when the value does not fit.
pub fn parse_digits(s: &str, from: usize, to: usize) -> (r: Option<u32>)
    requires
        from <= to <= s@.len(),
        forall|i: int| from <= i < to ==> is_digit_char(#[trigger] s@[i]),
    ensures
        r is Some <==> digits_value(s@.subrange(from as int, to as int)) <= u32::MAX,
        r matches Some(v) ==> v == digits_value(s@.subrange(from as int, to as int)),
{
    let ghost d = s@.subrange(from as int, to as int);
    let mut j: usize = from;
    let mut val: u64 = 0;
    while j < to
        invariant
            from <= j <= to <= s@.len(),
            forall|i: int| from <= i < to ==> is_digit_char(#[trigger] s@[i]),
            d == s@.subrange(from as int, to as int),
            val == digits_value(d.take(j - from)),
            val <= u32::MAX,
        decreases to - j,
    {
        let c = s.get_char(j);
        assert(c == d[j - from]);
        let dv: u64 = (c as u32 - '0' as u32) as u64;
        proof {
            lemma_digits_value_take_succ(d, j - from);
        }
        val = val * 10 + dv;
        j = j + 1;
        if val > u32::MAX as u64 {
            proof {
                lemma_digits_value_prefix(d, j - from);
            }
            return None;
        }
    }
    proof {
        assert(d.take(to - from) =~= d);
    }
    Some(val as u32)
}

/// Renders `n` as its canonical decimal digit characters.
pub fn u32_to_digits(n: u32) -> (v: Vec<char>)
    ensures
        v@ == render_digits(n as nat),
    decreases n,
{
    let d = digit_of(n % 10);
    if n < 10 {
        let mut v: Vec<char> = Vec::new();
        v.push(d);
        proof {
            assert(v@ =~= seq![digit_char(n as nat)]);
        }
        v
    } else {
        let mut v = u32_to_digits(n / 10);
        v.push(d);
        proof {
            assert(v@ =~= render_digits((n / 10) as nat) + seq![digit_char((n % 10) as nat)]);
            assert((n / 10) as nat == (n as nat) / 10);
            assert((n % 10) as nat == (n as nat) % 10);
        }
        v
    }
}

/// The digit character of a value below ten, executably.
fn digit_of(d: u32) -> (c: char)
    requires
        d < 10,
    ensures
        c == digit_char(d as nat),
{
    if d == 0 {
        '0'
    } else if d == 1 {
        '1'
    } else if d == 2 {
        '2'
    } else if d == 3 {
        '3'
    } else if d == 4 {
        '4'
    } else if d == 5 {
        '5'
    } else if d == 6 {
        '6'
    } else if d == 7 {
        '7'
    } else if d == 8 {
        '8'
    } else {
        '9'
    }
}

} // verus!
