//! Signed integers as decimal text, in both directions.
use vstd::prelude::*;

verus! {

/// The character that writes the digit `d` (for `d < 10`).
pub open spec fn digit_char(d: nat) -> char {
    if d == 0 { '0' }
    else if d == 1 { '1' }
    else if d == 2 { '2' }
    else if d == 3 { '3' }
    else if d == 4 { '4' }
    else if d == 5 { '5' }
    else if d == 6 { '6' }
    else if d == 7 { '7' }
    else if d == 8 { '8' }
    else { '9' }
}

pub open spec fn is_digit(c: char) -> bool {
    '0' <= c && c <= '9'
}

/// The value of a decimal digit character.
pub open spec fn digit_value(c: char) -> nat {
    if c == '0' { 0 }
    else if c == '1' { 1 }
    else if c == '2' { 2 }
    else if c == '3' { 3 }
    else if c == '4' { 4 }
    else if c == '5' { 5 }
    else if c == '6' { 6 }
    else if c == '7' { 7 }
    else if c == '8' { 8 }
    else { 9 }
}

pub open spec fn all_digits(s: Seq<char>) -> bool {
    forall|i: int| 0 <= i < s.len() ==> #[trigger] is_digit(s[i])
}

/// The number that a run of digits writes, most significant first.
pub open spec fn digits_value(s: Seq<char>) -> nat
    decreases s.len(),
{
    if s.len() == 0 {
        0
    } else {
        digits_value(s.drop_last()) * 10 + digit_value(s.last())
    }
}

/// The shortest decimal text of a natural number.
pub open spec fn nat_text(n: nat) -> Seq<char>
    decreases n,
{
    if n < 10 {
        seq![digit_char(n)]
    } else {
        nat_text(n / 10).push(digit_char(n % 10))
    }
}

/// The decimal text of an integer: a minus sign before negative ones.
pub open spec fn int_text(i: int) -> Seq<char> {
    if i < 0 {
        seq!['-'] + nat_text((-i) as nat)
    } else {
        nat_text(i as nat)
    }
}

pub open spec fn i64_bound() -> nat {
    0x8000_0000_0000_0000
}

/// Reads a signed 64-bit integer: an optional sign, then one or more digits,
/// and a value in range.
pub open spec fn int_of_text(s: Seq<char>) -> Option<int> {
    if s.len() > 0 && (s[0] == '-' || s[0] == '+') {
        let body = s.subrange(1, s.len() as int);
        if body.len() > 0 && all_digits(body) {
            if s[0] == '-' && digits_value(body) <= i64_bound() {
                Some(-(digits_value(body) as int))
            } else if s[0] == '+' && digits_value(body) < i64_bound() {
                Some(digits_value(body) as int)
            } else {
                None
            }
        } else {
            None
        }
    } else if s.len() > 0 && all_digits(s) && digits_value(s) < i64_bound() {
        Some(digits_value(s) as int)
    } else {
        None
    }
}

proof fn lemma_digit(d: nat)
    requires
        d < 10,
    ensures
        is_digit(digit_char(d)),
        digit_value(digit_char(d)) == d,
        digit_char(d) != '-',
        digit_char(d) != '+',
        digit_char(d) != '|',
        digit_char(d) != '\\',
{
}

/// The text of a natural number is digits that read back as that number.
pub proof fn lemma_nat_text(n: nat)
    ensures
        nat_text(n).len() >= 1,
        all_digits(nat_text(n)),
        digits_value(nat_text(n)) == n,
    decreases n,
{
    if n < 10 {
        lemma_digit(n);
        assert(nat_text(n).drop_last() =~= Seq::<char>::empty());
        assert(digits_value(Seq::<char>::empty()) == 0);
        assert(digits_value(nat_text(n)) == digits_value(Seq::<char>::empty()) * 10 + digit_value(
            digit_char(n),
        ));
    } else {
        lemma_nat_text(n / 10);
        lemma_digit(n % 10);
        let t = nat_text(n);
        assert(t.drop_last() =~= nat_text(n / 10));
        assert(t.last() == digit_char(n % 10));
        assert(n == (n / 10) * 10 + n % 10);
        assert(digits_value(t) == digits_value(t.drop_last()) * 10 + digit_value(t.last()));
        assert(all_digits(t)) by {
            assert forall|i: int| 0 <= i < t.len() implies #[trigger] is_digit(t[i]) by {
                if i < t.len() - 1 {
                    assert(t[i] == nat_text(n / 10)[i]);
                }
            }
        }
    }
}

/// Reading the text of a 64-bit integer gives the integer back.
pub proof fn lemma_int_text_round_trip(i: int)
    requires
        -(i64_bound() as int) <= i < i64_bound(),
    ensures
        int_of_text(int_text(i)) == Some(i),
{
    if i < 0 {
        let n = (-i) as nat;
        lemma_nat_text(n);
        let s = int_text(i);
        assert(s.subrange(1, s.len() as int) =~= nat_text(n));
    } else {
        let n = i as nat;
        lemma_nat_text(n);
        assert(is_digit(nat_text(n)[0]));
    }
}

/// No character of an integer's text is `|`, `\` or a newline.
pub proof fn lemma_int_text_plain(i: int)
    ensures
        forall|k: int|
            0 <= k < int_text(i).len() ==> #[trigger] int_text(i)[k] != '|' && int_text(i)[k]
                != '\\' && int_text(i)[k] != '\n',
{
    let n = if i < 0 { (-i) as nat } else { i as nat };
    lemma_nat_text(n);
    let t = nat_text(n);
    assert forall|k: int| 0 <= k < int_text(i).len() implies #[trigger] int_text(i)[k] != '|'
        && int_text(i)[k] != '\\' && int_text(i)[k] != '\n' by {
        if i < 0 {
            if k > 0 {
                assert(int_text(i)[k] == t[k - 1]);
                assert(is_digit(t[k - 1]));
            }
        } else {
            assert(is_digit(t[k]));
        }
    }
}

fn digit_to_char(d: u64) -> (c: char)
    requires
        d < 10,
    ensures
        c == digit_char(d as nat),
{
    if d == 0 { '0' }
    else if d == 1 { '1' }
    else if d == 2 { '2' }
    else if d == 3 { '3' }
    else if d == 4 { '4' }
    else if d == 5 { '5' }
    else if d == 6 { '6' }
    else if d == 7 { '7' }
    else if d == 8 { '8' }
    else { '9' }
}

fn char_to_digit(c: char) -> (r: Option<u64>)
    ensures
        r.is_some() == is_digit(c),
        r.is_some() ==> r.unwrap() == digit_value(c) && r.unwrap() < 10,
{
    if c == '0' { Some(0) }
    else if c == '1' { Some(1) }
    else if c == '2' { Some(2) }
    else if c == '3' { Some(3) }
    else if c == '4' { Some(4) }
    else if c == '5' { Some(5) }
    else if c == '6' { Some(6) }
    else if c == '7' { Some(7) }
    else if c == '8' { Some(8) }
    else if c == '9' { Some(9) }
    else { None }
}

/// Appends the decimal text of `n`.
fn push_nat_text(n: u64, out: &mut Vec<char>)
    ensures
        final(out)@ == old(out)@ + nat_text(n as nat),
    decreases n,
{
    if n >= 10 {
        push_nat_text(n / 10, out);
    }
    let c = digit_to_char(n % 10);
    out.push(c);
    proof {
        if n >= 10 {
            assert(nat_text(n as nat) == nat_text((n / 10) as nat).push(digit_char((n % 10) as nat)));
        }
    }
    assert(final(out)@ =~= old(out)@ + nat_text(n as nat)) by {
        if n < 10 {
            assert(nat_text(n as nat) == seq![digit_char(n as nat)]);
        }
    }
}

/// The decimal text of `i`, as characters.
pub fn int_to_chars(i: i64) -> (r: Vec<char>)
    ensures
        r@ == int_text(i as int),
{
    let mut out: Vec<char> = Vec::new();
    if i < 0 {
        out.push('-');
        let m: u64 = if i == i64::MIN { 0x8000_0000_0000_0000u64 } else { (-i) as u64 };
        push_nat_text(m, &mut out);
        assert(out@ =~= seq!['-'] + nat_text((-(i as int)) as nat));
    } else {
        push_nat_text(i as u64, &mut out);
        assert(out@ =~= nat_text(i as nat));
    }
    out
}

/// Reads a signed 64-bit integer from decimal text.
pub fn chars_to_int(s: &Vec<char>) -> (r: Option<i64>)
    ensures
        r.is_some() == int_of_text(s@).is_some(),
        r.is_some() ==> r.unwrap() as int == int_of_text(s@).unwrap(),
{
    let n = s.len();
    if n == 0 {
        return None;
    }
    let c0 = s[0];
    let signed = c0 == '-' || c0 == '+';
    let start: usize = if signed { 1 } else { 0 };
    if start == n {
        return None;
    }
    let ghost body = s@.subrange(start as int, n as int);
    let mut v: u64 = 0;
    let mut over = false;
    let mut i: usize = start;
    while i < n
        invariant
            start <= i <= n,
            n == s@.len(),
            c0 == s@[0],
            signed == (c0 == '-' || c0 == '+'),
            start == (if signed { 1usize } else { 0usize }),
            body == s@.subrange(start as int, n as int),
            all_digits(s@.subrange(start as int, i as int)),
            !over ==> v == digits_value(s@.subrange(start as int, i as int)),
            !over ==> v <= i64_bound(),
            over ==> digits_value(s@.subrange(start as int, i as int)) > i64_bound(),
        decreases n - i,
    {
        let c = s[i];
        let d = char_to_digit(c);
        let ghost pre = s@.subrange(start as int, i as int);
        let ghost next = s@.subrange(start as int, i + 1);
        assert(next.drop_last() =~= pre);
        match d {
            None => {
                proof {
                    let k = i - start;
                    assert(body[k] == c);
                    assert(!all_digits(body));
                    if !signed {
                        assert(body =~= s@);
                    }
                }
                return None;
            },
            Some(d) => {
                if !over {
                    if v > (0x8000_0000_0000_0000u64 - d) / 10 {
                        over = true;
                        assert(v * 10 + d > i64_bound()) by (nonlinear_arith)
                            requires
                                v > (i64_bound() - d) / 10,
                                d < 10,
                        ;
                    } else {
                        assert(v * 10 + d <= i64_bound()) by (nonlinear_arith)
                            requires
                                v <= (i64_bound() - d) / 10,
                                d < 10,
                        ;
                        v = v * 10 + d;
                    }
                } else {
                    assert(digits_value(pre) * 10 + d > i64_bound()) by (nonlinear_arith)
                        requires
                            digits_value(pre) > i64_bound(),
                    ;
                }
                assert(all_digits(next)) by {
                    assert forall|k: int| 0 <= k < next.len() implies #[trigger] is_digit(
                        next[k],
                    ) by {
                        if k < next.len() - 1 {
                            assert(next[k] == pre[k]);
                        }
                    }
                }
            },
        }
        i = i + 1;
    }
    assert(s@.subrange(start as int, n as int) == body);
    if !signed {
        assert(body =~= s@);
    }
    if over {
        return None;
    }
    if c0 == '-' {
        if v == 0x8000_0000_0000_0000u64 {
            Some(i64::MIN)
        } else {
            Some(-(v as i64))
        }
    } else if v == 0x8000_0000_0000_0000u64 {
        None
    } else {
        Some(v as i64)
    }
}

} // verus!
