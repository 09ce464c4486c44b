//! Numbers written as text: lower-case hexadecimal, and decimal padded with
//! zeros to a width.

use vstd::prelude::*;

verus! {

/// The hexadecimal digit for `d` (below 16).
pub open spec fn hex_char(d: nat) -> char {
    "0123456789abcdef"@[d as int]
}

/// `n` in lower-case hexadecimal, without leading zeros ("0" for zero).
pub open spec fn lower_hex(n: nat) -> Seq<char>
    decreases n,
{
    if n < 16 {
        seq![hex_char(n)]
    } else {
        lower_hex(n / 16).push(hex_char(n % 16))
    }
}

/// The decimal digit for `d` (below 10).
pub open spec fn dec_char(d: nat) -> char {
    "0123456789"@[d as int]
}

/// `n` in decimal, without leading zeros ("0" for zero).
pub open spec fn decimal(n: nat) -> Seq<char>
    decreases n,
{
    if n < 10 {
        seq![dec_char(n)]
    } else {
        decimal(n / 10).push(dec_char(n % 10))
    }
}

/// `width - k` zeros, or none when `k` already reaches `width`.
pub open spec fn zeros(width: nat, k: nat) -> Seq<char> {
    Seq::new(if k < width { (width - k) as nat } else { 0 }, |i: int| '0')
}

/// `n` in decimal, with zeros in front up to `width` characters.
pub open spec fn padded_decimal(n: nat, width: nat) -> Seq<char> {
    zeros(width, decimal(n).len()) + decimal(n)
}

/// The character `c` as a one-character string, `c` being the `d`-th of `digits`.
fn digit_text(digits: &str, d: usize) -> (r: String)
    requires
        d < digits@.len() <= 16,
    ensures
        r@ == seq![digits@[d as int]],
{
    let r = String::from_str(digits.substring_char(d, d + 1));
    proof {
        assert(r@ =~= seq![digits@[d as int]]);
    }
    r
}

/// `n` in lower-case hexadecimal.
pub fn to_lower_hex(n: u32) -> (r: String)
    ensures
        r@ == lower_hex(n as nat),
    decreases n,
{
    let digits = "0123456789abcdef";
    proof {
        reveal_strlit("0123456789abcdef");
    }
    if n < 16 {
        digit_text(digits, n as usize)
    } else {
        let mut r = to_lower_hex(n / 16);
        let last = digit_text(digits, (n % 16) as usize);
        r.append(last.as_str());
        r
    }
}

/// `n` in decimal.
pub fn to_decimal(n: u32) -> (r: String)
    ensures
        r@ == decimal(n as nat),
    decreases n,
{
    let digits = "0123456789";
    proof {
        reveal_strlit("0123456789");
    }
    if n < 10 {
        digit_text(digits, n as usize)
    } else {
        let mut r = to_decimal(n / 10);
        let last = digit_text(digits, (n % 10) as usize);
        r.append(last.as_str());
        r
    }
}

/// `n` in decimal, with zeros in front up to `width` characters.
pub fn to_padded_decimal(n: u32, width: usize) -> (r: String)
    ensures
        r@ == padded_decimal(n as nat, width as nat),
{
    let digits = to_decimal(n);
    let len = digits.as_str().unicode_len();
    let mut out = String::new();
    let mut k: usize = len;
    while k < width
        invariant
            len == decimal(n as nat).len(),
            len <= k,
            k <= width || k == len,
            out@ == zeros(k as nat, len as nat),
        decreases width - k,
    {
        out.append("0");
        proof {
            reveal_strlit("0");
            assert(out@ =~= zeros((k + 1) as nat, len as nat));
        }
        k = k + 1;
    }
    proof {
        assert(zeros(k as nat, len as nat) =~= zeros(width as nat, len as nat));
    }
    out.append(digits.as_str());
    out
}


/// Ten to the power `w`.
pub open spec fn pow10(w: nat) -> nat
    decreases w,
{
    if w == 0 {
        1
    } else {
        10 * pow10((w - 1) as nat)
    }
}

/// Each decimal digit is a character from '0' to '9'.
proof fn lemma_dec_char(d: nat)
    requires
        d < 10,
    ensures
        '0' <= dec_char(d) <= '9',
{
    reveal_strlit("0123456789");
    assert("0123456789"@ =~= seq!['0', '1', '2', '3', '4', '5', '6', '7', '8', '9']);
    if d == 0 {} else if d == 1 {} else if d == 2 {} else if d == 3 {} else if d == 4 {}
    else if d == 5 {} else if d == 6 {} else if d == 7 {} else if d == 8 {} else {}
}

/// Decimal text is made of digits only.
pub proof fn lemma_decimal_digits(n: nat)
    ensures
        forall|i: int| 0 <= i < decimal(n).len() ==> '0' <= #[trigger] decimal(n)[i] <= '9',
    decreases n,
{
    if n >= 10 {
        lemma_decimal_digits(n / 10);
        lemma_dec_char(n % 10);
        let pre = decimal(n / 10);
        assert(decimal(n) == pre.push(dec_char(n % 10)));
        assert forall|i: int| 0 <= i < decimal(n).len() implies '0' <= #[trigger] decimal(n)[i] <= '9' by {
            if i < pre.len() {
                assert(decimal(n)[i] == pre[i]);
            }
        }
    } else {
        lemma_dec_char(n);
        assert(decimal(n) == seq![dec_char(n)]);
    }
}

/// A number below `10^w` takes at most `w` digits.
pub proof fn lemma_decimal_len(n: nat, w: nat)
    requires
        w >= 1,
        n < pow10(w),
    ensures
        1 <= decimal(n).len() <= w,
    decreases n,
{
    if n >= 10 {
        assert(w >= 2) by {
            if w == 1 {
                assert(pow10(0) == 1);
            }
        }
        let p = pow10((w - 1) as nat);
        assert(n / 10 < p) by (nonlinear_arith)
            requires
                n < 10 * p,
        ;
        lemma_decimal_len(n / 10, (w - 1) as nat);
    }
}

/// A number below `10^w`, padded to `w`, is exactly `w` digits.
pub proof fn lemma_padded_decimal(n: nat, w: nat)
    requires
        w >= 1,
        n < pow10(w),
    ensures
        padded_decimal(n, w).len() == w,
        forall|i: int| 0 <= i < w ==> '0' <= #[trigger] padded_decimal(n, w)[i] <= '9',
{
    lemma_decimal_len(n, w);
    lemma_decimal_digits(n);
    let z = zeros(w, decimal(n).len());
    assert forall|i: int| 0 <= i < w implies '0' <= #[trigger] padded_decimal(n, w)[i] <= '9' by {
        if i >= z.len() {
            assert(padded_decimal(n, w)[i] == decimal(n)[i - z.len()]);
        }
    }
}


/// Hexadecimal text holds no '/'.
pub proof fn lemma_lower_hex_no_slash(n: nat)
    ensures
        lower_hex(n).len() > 0,
        forall|i: int| 0 <= i < lower_hex(n).len() ==> #[trigger] lower_hex(n)[i] != '/',
    decreases n,
{
    reveal_strlit("0123456789abcdef");
    let digits = "0123456789abcdef"@;
    assert forall|d: int| 0 <= d < 16 implies #[trigger] digits[d] != '/' by {
        assert(digits =~= seq!['0', '1', '2', '3', '4', '5', '6', '7', '8', '9', 'a', 'b', 'c', 'd', 'e', 'f']);
    }
    if n >= 16 {
        lemma_lower_hex_no_slash(n / 16);
        let pre = lower_hex(n / 16);
        assert(hex_char(n % 16) == digits[(n % 16) as int]);
        assert forall|i: int| 0 <= i < lower_hex(n).len() implies #[trigger] lower_hex(n)[i] != '/' by {
            if i < pre.len() {
                assert(lower_hex(n)[i] == pre[i]);
            }
        }
    } else {
        assert(hex_char(n) == digits[n as int]);
    }
}

} // verus!
