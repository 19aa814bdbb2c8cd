//! Rendering of integers and byte lists, and small character-level helpers.
use vstd::prelude::*;
use vstd::std_specs::iter::IteratorSpec;

verus! {

/// The character for a digit value below 16 (lower-case letters past 9).
pub open spec fn digit_char(d: nat) -> char {
    if d < 10 {
        (48 + d) as char
    } else {
        (87 + d) as char
    }
}

/// The upper-case character for a digit value below 16.
pub open spec fn upper_digit_char(d: nat) -> char {
    if d < 10 {
        (48 + d) as char
    } else {
        (55 + d) as char
    }
}

/// Decimal digits of `n`, without leading zeros.
pub open spec fn dec(n: nat) -> Seq<char>
    decreases n,
{
    if n < 10 {
        seq![digit_char(n)]
    } else {
        dec(n / 10).push(digit_char(n % 10))
    }
}

/// Lower-case hexadecimal digits of `n`, without leading zeros.
pub open spec fn hex(n: nat) -> Seq<char>
    decreases n,
{
    if n < 16 {
        seq![digit_char(n)]
    } else {
        hex(n / 16).push(digit_char(n % 16))
    }
}

/// Appends one character to a string.
#[verifier::external_body]
pub(crate) fn push_char(out: &mut String, c: char)
    ensures
        final(out)@ == old(out)@.push(c),
{
    out.push(c);
}

fn digit(d: u64) -> (c: char)
    requires
        d < 16,
    ensures
        c == digit_char(d as nat),
{
    if d < 10 {
        ((48 + d) as u8) as char
    } else {
        ((87 + d) as u8) as char
    }
}

/// Appends the decimal digits of `n`.
pub fn push_dec(out: &mut String, n: u64)
    ensures
        final(out)@ == old(out)@ + dec(n as nat),
    decreases n,
{
    if n >= 10 {
        push_dec(out, n / 10);
    }
    push_char(out, digit(n % 10));
    proof {
        if n >= 10 {
            assert(old(out)@ + dec(n as nat) =~= old(out)@ + dec((n / 10) as nat) + seq![digit_char((n % 10) as nat)]);
        }
    }
}


/// Appends the lower-case hexadecimal digits of `n`.
pub fn push_hex(out: &mut String, n: u64)
    ensures
        final(out)@ == old(out)@ + hex(n as nat),
    decreases n,
{
    if n >= 16 {
        push_hex(out, n / 16);
    }
    push_char(out, digit(n % 16));
    proof {
        if n >= 16 {
            assert(old(out)@ + hex(n as nat) =~= old(out)@ + hex((n / 16) as nat) + seq![digit_char((n % 16) as nat)]);
        }
    }
}

/// The decimal digits of `n`, as characters.
pub fn dec_vec(n: u64) -> (v: Vec<char>)
    ensures
        v@ == dec(n as nat),
    decreases n,
{
    let mut v = if n >= 10 {
        dec_vec(n / 10)
    } else {
        Vec::new()
    };
    v.push(digit(n % 10));
    proof {
        if n < 10 {
            assert(v@ =~= dec(n as nat));
        }
    }
    v
}

/// Decimal digits of a signed number: a `-` before the digits of its
/// magnitude when it is negative.
pub open spec fn signed_dec(x: int) -> Seq<char> {
    if x < 0 {
        seq!['-'] + dec((-x) as nat)
    } else {
        dec(x as nat)
    }
}

/// Appends the decimal form of `x`.
pub fn push_signed(out: &mut String, x: i64)
    ensures
        final(out)@ == old(out)@ + signed_dec(x as int),
{
    if x < 0 {
        push_char(out, '-');
        let m: u64 = (0i128 - (x as i128)) as u64;
        push_dec(out, m);
        assert(old(out)@ + signed_dec(x as int) =~= old(out)@.push('-') + dec(m as nat));
    } else {
        push_dec(out, x as u64);
    }
}

/// Two hexadecimal digits of a byte, upper-case letters when `upper`.
pub open spec fn hex2(b: u8, upper: bool) -> Seq<char> {
    if upper {
        seq![upper_digit_char((b / 16) as nat), upper_digit_char((b % 16) as nat)]
    } else {
        seq![digit_char((b / 16) as nat), digit_char((b % 16) as nat)]
    }
}

fn upper_digit(d: u8) -> (c: char)
    requires
        d < 16,
    ensures
        c == upper_digit_char(d as nat),
{
    if d < 10 {
        (48 + d) as char
    } else {
        (55 + d) as char
    }
}

/// Appends the two hexadecimal digits of `b`.
pub fn push_hex2(out: &mut String, b: u8, upper: bool)
    ensures
        final(out)@ == old(out)@ + hex2(b, upper),
{
    if upper {
        push_char(out, upper_digit(b / 16));
        push_char(out, upper_digit(b % 16));
    } else {
        push_char(out, digit((b / 16) as u64));
        push_char(out, digit((b % 16) as u64));
    }
    assert(final(out)@ =~= old(out)@ + hex2(b, upper));
}

/// Appends every character of `v`.
pub fn push_all(out: &mut String, v: &Vec<char>)
    ensures
        final(out)@ == old(out)@ + v@,
{
    let ghost start = out@;
    let mut i: usize = 0;
    while i < v.len()
        invariant
            i <= v.len(),
            out@ == start + v@.take(i as int),
        decreases v.len() - i,
    {
        push_char(out, v[i]);
        assert(v@.take(i + 1) =~= v@.take(i as int).push(v@[i as int]));
        i = i + 1;
    }
    assert(v@.take(i as int) =~= v@);
}

/// Appends a string slice.
pub fn push_str(out: &mut String, s: &str)
    ensures
        final(out)@ == old(out)@ + s@,
{
    let v = chars_of(s);
    push_all(out, &v);
}

/// `{:?}` of a list of numbers: `[a, b, c]`.
pub open spec fn dec_list(s: Seq<u32>) -> Seq<char> {
    seq!['['] + dec_items(s) + seq![']']
}

pub open spec fn dec_items(s: Seq<u32>) -> Seq<char>
    decreases s.len(),
{
    if s.len() == 0 {
        seq![]
    } else if s.len() == 1 {
        dec(s[0] as nat)
    } else {
        dec_items(s.drop_last()) + seq![',', ' '] + dec(s.last() as nat)
    }
}

/// Appends `{:?}` of a list of numbers.
pub fn push_dec_list(out: &mut String, s: &[u32])
    ensures
        final(out)@ == old(out)@ + dec_list(s@),
{
    let ghost start = out@;
    push_char(out, '[');
    let mut i: usize = 0;
    while i < s.len()
        invariant
            i <= s.len(),
            out@ == start.push('[') + dec_items(s@.take(i as int)),
        decreases s.len() - i,
    {
        let ghost before = out@;
        assert(s@.take(i + 1).drop_last() =~= s@.take(i as int));
        if i > 0 {
            push_char(out, ',');
            push_char(out, ' ');
        }
        push_dec(out, s[i] as u64);
        assert(out@ =~= start.push('[') + dec_items(s@.take(i + 1)));
        i = i + 1;
    }
    push_char(out, ']');
    assert(s@.take(i as int) =~= s@);
    assert(out@ =~= start + dec_list(s@));
}

/// `{:02X?}` of a list of bytes: `[0A, FF]`.
pub open spec fn byte_list(s: Seq<u8>) -> Seq<char> {
    seq!['['] + byte_items(s) + seq![']']
}

pub open spec fn byte_items(s: Seq<u8>) -> Seq<char>
    decreases s.len(),
{
    if s.len() == 0 {
        seq![]
    } else if s.len() == 1 {
        hex2(s[0], true)
    } else {
        byte_items(s.drop_last()) + seq![',', ' '] + hex2(s.last(), true)
    }
}

/// Appends `{:02X?}` of a list of bytes.
pub fn push_byte_list(out: &mut String, s: &[u8])
    ensures
        final(out)@ == old(out)@ + byte_list(s@),
{
    let ghost start = out@;
    push_char(out, '[');
    let mut i: usize = 0;
    while i < s.len()
        invariant
            i <= s.len(),
            out@ == start.push('[') + byte_items(s@.take(i as int)),
        decreases s.len() - i,
    {
        assert(s@.take(i + 1).drop_last() =~= s@.take(i as int));
        if i > 0 {
            push_char(out, ',');
            push_char(out, ' ');
        }
        push_hex2(out, s[i], true);
        assert(out@ =~= start.push('[') + byte_items(s@.take(i + 1)));
        i = i + 1;
    }
    push_char(out, ']');
    assert(s@.take(i as int) =~= s@);
    assert(out@ =~= start + byte_list(s@));
}

/// The characters of a string slice, in order.
pub fn chars_of(s: &str) -> (v: Vec<char>)
    ensures
        v@ == s@,
{
    broadcast use vstd::string::axiom_spec_iter, vstd::string::next_postcondition;

    let mut v: Vec<char> = Vec::new();
    let mut chars = s.chars();
    loop
        invariant
            v@ + chars.remaining() == s@,
            chars.decrease() is Some,
        ensures
            v@ == s@,
        decreases chars.decrease()->0,
    {
        let ghost before = chars.remaining();
        match chars.next() {
            Some(c) => {
                v.push(c);
                assert(v@ + chars.remaining() =~= s@);
            },
            None => {
                assert(before.len() == 0);
                assert(v@ =~= s@);
                break ;
            },
        }
    }
    v
}

} // verus!
