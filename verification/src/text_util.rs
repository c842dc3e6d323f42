use vstd::prelude::*;

verus! {

/// The characters that `String::from_utf8_lossy` makes of `bytes`: the decoded text, with
/// U+FFFD for each piece that is not valid UTF-8.
pub uninterp spec fn lossy_text(bytes: Seq<u8>) -> Seq<char>;

/// `String::from_utf8_lossy`, taken into an owned string. Its documentation says that valid
/// UTF-8 decodes to exactly its characters and that each invalid sequence becomes one
/// U+FFFD, so no character comes from fewer than one byte; what invalid input gives
/// otherwise is left to the name.
#[verifier::external_body]
pub fn utf8_lossy(bytes: &[u8]) -> (r: String)
    ensures
        r@ == lossy_text(bytes@),
        r@.len() <= bytes@.len(),
        vstd::utf8::valid_utf8(bytes@) ==> r@ == vstd::utf8::decode_utf8(bytes@),
{
    String::from_utf8_lossy(bytes).into_owned()
}

} // verus!

verus! {

/// `String::push`: appends one character.
#[verifier::external_body]
pub fn push_char(s: &mut String, c: char)
    ensures
        final(s)@ == old(s)@.push(c),
{
    s.push(c);
}

/// The character for a digit below 16: `0`-`9`, then `a`-`f` (or `A`-`F`).
pub open spec fn digit_char(d: nat, upper: bool) -> char {
    if d < 10 {
        (48 + d) as char
    } else if upper {
        (55 + d) as char
    } else {
        (87 + d) as char
    }
}

/// The digits of `n` in base `base` (2 to 16), most significant first, without leading
/// zeros (zero itself is one digit).
pub open spec fn digits(n: nat, base: nat, upper: bool) -> Seq<char>
    decreases n,
{
    if base < 2 || n < base {
        seq![digit_char(n % 16, upper)]
    } else {
        proof {
            lemma_div_smaller(n, base);
        }
        digits(n / base, base, upper).push(digit_char(n % base, upper))
    }
}

pub proof fn lemma_div_smaller(n: nat, base: nat)
    requires
        2 <= base <= n,
    ensures
        n / base < n,
        n / base <= n / 2,
{
    assert(n / base < n && n / base <= n / 2) by (nonlinear_arith)
        requires
            2 <= base <= n,
    ;
}

/// The decimal text of `n`.
pub open spec fn decimal(n: nat) -> Seq<char> {
    digits(n, 10, false)
}

/// The decimal text of a signed value: a minus sign before the magnitude when negative.
pub open spec fn signed_decimal(v: int) -> Seq<char> {
    if v < 0 {
        seq!['-'] + decimal((-v) as nat)
    } else {
        decimal(v as nat)
    }
}

/// `digits` left-padded with zeros to at least `width` characters, as `{:0width$x}` writes.
pub open spec fn padded(d: Seq<char>, width: nat) -> Seq<char> {
    if d.len() >= width {
        d
    } else {
        Seq::new((width - d.len()) as nat, |i: int| '0') + d
    }
}

/// Hexadecimal text of `n`, zero-padded to `width`.
pub open spec fn hex(n: nat, width: nat, upper: bool) -> Seq<char> {
    padded(digits(n, 16, upper), width)
}

pub proof fn lemma_digits_len(n: nat, base: nat, upper: bool)
    requires
        2 <= base,
    ensures
        digits(n, base, upper).len() >= 1,
    decreases n,
{
    if n >= base {
        lemma_div_smaller(n, base);
        lemma_digits_len(n / base, base, upper);
    }
}

fn digit(d: u64, upper: bool) -> (c: char)
    requires
        d < 16,
    ensures
        c == digit_char(d as nat, upper),
{
    if d < 10 {
        ((48 + d) as u8) as char
    } else if upper {
        ((55 + d) as u8) as char
    } else {
        ((87 + d) as u8) as char
    }
}

/// Appends the digits of `n` in base `base`.
pub fn push_digits(s: &mut String, n: u64, base: u64, upper: bool)
    requires
        2 <= base <= 16,
    ensures
        final(s)@ == old(s)@ + digits(n as nat, base as nat, upper),
    decreases n,
{
    if n >= base {
        proof {
            lemma_div_smaller(n as nat, base as nat);
        }
        push_digits(s, n / base, base, upper);
    }
    push_char(s, digit(n % base, upper));
    proof {
        if n < base {
            assert(n % base == n % 16) by (nonlinear_arith)
                requires
                    n < base <= 16,
            ;
        }
        assert(s@ =~= old(s)@ + digits(n as nat, base as nat, upper));
    }
}

/// Appends the decimal text of `n`.
pub fn push_decimal(s: &mut String, n: u64)
    ensures
        final(s)@ == old(s)@ + decimal(n as nat),
{
    push_digits(s, n, 10, false);
}

/// Appends the decimal text of a signed value.
pub fn push_signed(s: &mut String, v: i64)
    ensures
        final(s)@ == old(s)@ + signed_decimal(v as int),
{
    if v < 0 {
        push_char(s, '-');
        let magnitude: u64 = ((-(v + 1)) as u64) + 1;
        push_decimal(s, magnitude);
        proof {
            assert(s@ =~= old(s)@ + signed_decimal(v as int));
        }
    } else {
        push_decimal(s, v as u64);
    }
}

/// Number of digits of `n` in base `base`.
fn digit_count(n: u64, base: u64) -> (r: u64)
    requires
        2 <= base <= 16,
    ensures
        r == digits(n as nat, base as nat, false).len(),
        r <= n + 1,
    decreases n,
{
    if n < base {
        1
    } else {
        proof {
            lemma_div_smaller(n as nat, base as nat);
        }
        let r = digit_count(n / base, base);
        r + 1
    }
}

proof fn lemma_digits_len_case(n: nat, base: nat, a: bool, b: bool)
    requires
        2 <= base,
    ensures
        digits(n, base, a).len() == digits(n, base, b).len(),
    decreases n,
{
    if n >= base {
        lemma_div_smaller(n, base);
        lemma_digits_len_case(n / base, base, a, b);
    }
}

/// Appends the digits of `n` in base `base`, zero-padded to `width` characters.
pub fn push_padded(s: &mut String, n: u64, base: u64, width: u64, upper: bool)
    requires
        2 <= base <= 16,
    ensures
        final(s)@ == old(s)@ + padded(digits(n as nat, base as nat, upper), width as nat),
{
    let count = digit_count(n, base);
    proof {
        lemma_digits_len_case(n as nat, base as nat, false, upper);
    }
    let ghost start = s@;
    if count < width {
        let mut k: u64 = 0;
        while k < width - count
            invariant
                count < width,
                k <= width - count,
                s@ == start + Seq::new(k as nat, |i: int| '0'),
            decreases width - count - k,
        {
            push_char(s, '0');
            k = k + 1;
            proof {
                assert(s@ =~= start + Seq::new(k as nat, |i: int| '0'));
            }
        }
    }
    push_digits(s, n, base, upper);
    proof {
        assert(s@ =~= old(s)@ + padded(digits(n as nat, base as nat, upper), width as nat));
    }
}

/// Appends the hexadecimal text of `n`, zero-padded to `width` characters.
pub fn push_hex(s: &mut String, n: u64, width: u64, upper: bool)
    ensures
        final(s)@ == old(s)@ + hex(n as nat, width as nat, upper),
{
    push_padded(s, n, 16, width, upper);
}

/// Appends `t`.
pub fn push_str(s: &mut String, t: &str)
    ensures
        final(s)@ == old(s)@ + t@,
{
    s.append(t);
}

/// The text of a boolean, as `Display` writes it.
pub open spec fn bool_text(b: bool) -> Seq<char> {
    if b {
        "true"@
    } else {
        "false"@
    }
}

pub fn push_bool(s: &mut String, b: bool)
    ensures
        final(s)@ == old(s)@ + bool_text(b),
{
    if b {
        push_str(s, "true");
    } else {
        push_str(s, "false");
    }
}

} // verus!
