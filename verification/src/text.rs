//! Text helpers.

use vstd::prelude::*;

verus! {

/// The decimal digit of a number below ten.
pub open spec fn digit(d: int) -> char {
    if d == 0 {
        '0'
    } else if d == 1 {
        '1'
    } else if d == 2 {
        '2'
    } else if d == 3 {
        '3'
    } else if d == 4 {
        '4'
    } else if d == 5 {
        '5'
    } else if d == 6 {
        '6'
    } else if d == 7 {
        '7'
    } else if d == 8 {
        '8'
    } else {
        '9'
    }
}

/// A whole number in decimal, without leading zeros.
pub open spec fn decimal(n: nat) -> Seq<char>
    decreases n,
{
    if n < 10 {
        seq![digit(n as int)]
    } else {
        decimal(n / 10).push(digit((n % 10) as int))
    }
}

fn digit_text(d: u64) -> (s: &'static str)
    requires
        d < 10,
    ensures
        s@ == seq![digit(d as int)],
{
    proof {
        reveal_strlit("0");
        reveal_strlit("1");
        reveal_strlit("2");
        reveal_strlit("3");
        reveal_strlit("4");
        reveal_strlit("5");
        reveal_strlit("6");
        reveal_strlit("7");
        reveal_strlit("8");
        reveal_strlit("9");
    }
    let s: &'static str = if d == 0 {
        "0"
    } else if d == 1 {
        "1"
    } else if d == 2 {
        "2"
    } else if d == 3 {
        "3"
    } else if d == 4 {
        "4"
    } else if d == 5 {
        "5"
    } else if d == 6 {
        "6"
    } else if d == 7 {
        "7"
    } else if d == 8 {
        "8"
    } else {
        "9"
    };
    assert(s@ =~= seq![digit(d as int)]);
    s
}

/// Writes a whole number behind a text.
pub fn append_number(out: &mut String, n: u64)
    ensures
        final(out)@ == old(out)@ + decimal(n as nat),
    decreases n,
{
    let ghost before = out@;
    if n < 10 {
        out.append(digit_text(n));
    } else {
        append_number(out, n / 10);
        out.append(digit_text(n % 10));
        proof {
            assert(out@ =~= before + decimal((n / 10) as nat).push(digit((n % 10) as int)));
        }
    }
}

/// The code point of a character, of the small letter for an ASCII capital.
pub open spec fn lower_code(c: char) -> int {
    if 'A' as int <= c as int <= 'Z' as int {
        c as int + 32
    } else {
        c as int
    }
}

/// Whether two texts are equal when ASCII capitals count as small letters.
pub open spec fn same_ignoring_case(a: Seq<char>, b: Seq<char>) -> bool {
    a.len() == b.len() && forall|i: int|
        0 <= i < a.len() ==> lower_code(#[trigger] a[i]) == lower_code(b[i])
}

fn lower(c: char) -> (r: u32)
    ensures
        r == lower_code(c),
{
    let code: u32 = c as u32;
    if 65 <= code && code <= 90 {
        code + 32
    } else {
        code
    }
}

/// Whether two texts are equal when ASCII capitals count as small letters.
pub fn eq_ignoring_case(a: &str, b: &str) -> (r: bool)
    ensures
        r == same_ignoring_case(a@, b@),
{
    let n: usize = a.unicode_len();
    if n != b.unicode_len() {
        return false;
    }
    let mut i: usize = 0;
    while i < n
        invariant
            n == a@.len(),
            n == b@.len(),
            i <= n,
            forall|k: int| 0 <= k < i ==> lower_code(#[trigger] a@[k]) == lower_code(b@[k]),
        decreases n - i,
    {
        if lower(a.get_char(i)) != lower(b.get_char(i)) {
            assert(lower_code(a@[i as int]) != lower_code(b@[i as int]));
            return false;
        }
        i = i + 1;
    }
    true
}

/// Whether two texts are equal.
pub fn same_text(a: &str, b: &str) -> (r: bool)
    ensures
        r == (a@ == b@),
{
    let n: usize = a.unicode_len();
    if n != b.unicode_len() {
        return false;
    }
    let mut i: usize = 0;
    while i < n
        invariant
            n == a@.len(),
            n == b@.len(),
            i <= n,
            forall|k: int| 0 <= k < i ==> #[trigger] a@[k] == b@[k],
        decreases n - i,
    {
        if a.get_char(i) != b.get_char(i) {
            return false;
        }
        i = i + 1;
    }
    assert(a@ =~= b@);
    true
}

/// The characters of a text.
pub fn characters(s: &str) -> (r: Vec<char>)
    ensures
        r@ == s@,
{
    let n: usize = s.unicode_len();
    let mut text: Vec<char> = Vec::new();
    let mut k: usize = 0;
    while k < n
        invariant
            n == s@.len(),
            k <= n,
            text@ == s@.take(k as int),
        decreases n - k,
    {
        text.push(s.get_char(k));
        k = k + 1;
        assert(text@ =~= s@.take(k as int));
    }
    assert(s@.take(k as int) =~= s@);
    text
}

} // verus!
