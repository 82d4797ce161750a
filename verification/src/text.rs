use vstd::prelude::*;

verus! {

/// The decimal digits of `n`.
pub open spec fn decimal(n: nat) -> Seq<char>
    decreases n,
{
    if n < 10 {
        seq![digit_char(n)]
    } else {
        decimal(n / 10).push(digit_char(n % 10))
    }
}

/// The character of a digit.
pub open spec fn digit_char(d: nat) -> char {
    ('0' as nat + d) as char
}

/// The decimal digits of `n`, as text.
pub fn decimal_text(n: u16) -> (r: String)
    ensures
        r@ == decimal(n as nat),
    decreases n,
{
    let mut r = if n < 10 {
        String::new()
    } else {
        decimal_text(n / 10)
    };
    let d: u8 = (n % 10) as u8;
    let c = (48u8 + d) as char;
    string_push(&mut r, c);
    proof {
        if n < 10 {
            assert(r@ =~= seq![digit_char(n as nat)]);
        }
    }
    r
}


/// Appends `c` to `s` by `String::push` of std, which its documentation says appends the
/// character to the end of the string: the contract claims exactly that.
#[verifier::external_body]
pub(crate) fn string_push(s: &mut String, c: char)
    ensures
        final(s)@ == old(s)@.push(c),
{
    s.push(c);
}

/// Appends `text` to `r`.
pub fn append_text(r: &mut String, text: &str)
    ensures
        final(r)@ == old(r)@ + text@,
{
    let n = text.unicode_len();
    let mut i: usize = 0;
    while i < n
        invariant
            i <= n == text@.len(),
            r@ == old(r)@ + text@.take(i as int),
        decreases n - i,
    {
        string_push(r, text.get_char(i));
        i = i + 1;
        assert(r@ =~= old(r)@ + text@.take(i as int));
    }
    assert(text@.take(i as int) =~= text@);
}

/// The decimal digits of `x`, after a minus sign where it is negative.
pub open spec fn signed_decimal(x: int) -> Seq<char> {
    if x < 0 {
        seq!['-'] + decimal((-x) as nat)
    } else {
        decimal(x as nat)
    }
}

/// The decimal digits of `x`, after a minus sign where it is negative, as text.
pub fn signed_text(x: i8) -> (r: String)
    ensures
        r@ == signed_decimal(x as int),
{
    if x < 0 {
        let mut r = String::new();
        string_push(&mut r, '-');
        let magnitude: u16 = (0i16 - x as i16) as u16;
        let digits = decimal_text(magnitude);
        append_text(&mut r, digits.as_str());
        assert(r@ =~= seq!['-'] + decimal((-x) as nat));
        r
    } else {
        decimal_text(x as u16)
    }
}

/// `n` spaces.
pub open spec fn spaces(n: nat) -> Seq<char> {
    Seq::new(n, |i: int| ' ')
}

/// Appends `n` spaces to `r`.
pub fn push_spaces(r: &mut String, n: usize)
    ensures
        final(r)@ == old(r)@ + spaces(n as nat),
{
    let mut i: usize = 0;
    while i < n
        invariant
            i <= n,
            r@ == old(r)@ + spaces(i as nat),
        decreases n - i,
    {
        string_push(r, ' ');
        i = i + 1;
        assert(r@ =~= old(r)@ + spaces(i as nat));
    }
}

} // verus!
