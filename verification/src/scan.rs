//! Character-level scanning: splitting at a separator, trimming white space
//! and reading unsigned numbers, each stated over `Seq<char>` and computed
//! over a `Vec<char>` between two bounds.
use vstd::prelude::*;

verus! {

/// Unicode `White_Space`, the class that `char::is_whitespace`, `str::trim`
/// and `str::split_whitespace` use.
pub open spec fn is_space(c: char) -> bool {
    let u = c as u32;
    ||| 9 <= u <= 13
    ||| u == 32
    ||| u == 0x85
    ||| u == 0xA0
    ||| u == 0x1680
    ||| 0x2000 <= u <= 0x200A
    ||| u == 0x2028
    ||| u == 0x2029
    ||| u == 0x202F
    ||| u == 0x205F
    ||| u == 0x3000
}

/// Whether `c` is white space.
pub fn space(c: char) -> (r: bool)
    ensures
        r == is_space(c),
{
    let u = c as u32;
    (9 <= u && u <= 13) || u == 32 || u == 0x85 || u == 0xA0 || u == 0x1680 || (0x2000 <= u && u
        <= 0x200A) || u == 0x2028 || u == 0x2029 || u == 0x202F || u == 0x205F || u == 0x3000
}

/// What separates the pieces of a split.
#[derive(Clone, Copy)]
pub enum Sep {
    /// One given character.
    Char(char),
    /// Any white-space character.
    Space,
}

pub open spec fn splits_at(sep: Sep, c: char) -> bool {
    match sep {
        Sep::Char(d) => c == d,
        Sep::Space => is_space(c),
    }
}

fn is_split(sep: Sep, c: char) -> (r: bool)
    ensures
        r == splits_at(sep, c),
{
    match sep {
        Sep::Char(d) => c == d,
        Sep::Space => space(c),
    }
}

/// The pieces between separators, as `str::split` yields them: one more
/// piece than there are separators, empty pieces included.
pub open spec fn split(s: Seq<char>, sep: Sep) -> Seq<Seq<char>>
    decreases s.len(),
{
    if s.len() == 0 {
        seq![Seq::empty()]
    } else {
        let r = split(s.drop_last(), sep);
        if splits_at(sep, s.last()) {
            r.push(Seq::empty())
        } else {
            r.update(r.len() - 1, r.last().push(s.last()))
        }
    }
}

pub proof fn lemma_split_len(s: Seq<char>, sep: Sep)
    ensures
        split(s, sep).len() >= 1,
    decreases s.len(),
{
    if s.len() > 0 {
        lemma_split_len(s.drop_last(), sep);
    }
}

/// A sequence with no separator in it is one piece.
pub proof fn lemma_split_whole(s: Seq<char>, sep: Sep)
    requires
        forall|i: int| 0 <= i < s.len() ==> !splits_at(sep, #[trigger] s[i]),
    ensures
        split(s, sep) == seq![s],
    decreases s.len(),
{
    if s.len() > 0 {
        lemma_split_whole(s.drop_last(), sep);
        assert(s.drop_last().push(s.last()) =~= s);
    } else {
        assert(s =~= Seq::<char>::empty());
    }
}

/// Splitting around one separator splits each side.
pub proof fn lemma_split_concat(a: Seq<char>, c: char, b: Seq<char>, sep: Sep)
    requires
        splits_at(sep, c),
    ensures
        split(a.push(c) + b, sep) == split(a, sep) + split(b, sep),
    decreases b.len(),
{
    if b.len() == 0 {
        assert(a.push(c) + b =~= a.push(c));
        assert(a.push(c).drop_last() =~= a);
        assert(split(a, sep).push(Seq::empty()) =~= split(a, sep) + split(b, sep));
    } else {
        let b1 = b.drop_last();
        lemma_split_concat(a, c, b1, sep);
        lemma_split_len(b1, sep);
        lemma_split_len(a, sep);
        let whole = a.push(c) + b;
        assert(whole.drop_last() =~= a.push(c) + b1);
        assert(whole.last() == b.last());
        let r = split(a, sep) + split(b1, sep);
        if splits_at(sep, b.last()) {
            assert(r.push(Seq::empty()) =~= split(a, sep) + split(b, sep));
        } else {
            assert(r.update(r.len() - 1, r.last().push(b.last())) =~= split(a, sep) + split(b, sep));
        }
    }
}

/// The bounds of the pieces of `v[lo..hi]` split at `sep`.
pub fn split_bounds(v: &Vec<char>, lo: usize, hi: usize, sep: Sep) -> (r: Vec<(usize, usize)>)
    requires
        lo <= hi <= v.len(),
    ensures
        r.len() == split(v@.subrange(lo as int, hi as int), sep).len(),
        forall|j: int|
            0 <= j < r.len() ==> lo <= (#[trigger] r[j]).0 <= r[j].1 <= hi && v@.subrange(
                r[j].0 as int,
                r[j].1 as int,
            ) == split(v@.subrange(lo as int, hi as int), sep)[j],
{
    let mut r: Vec<(usize, usize)> = Vec::new();
    let mut start = lo;
    let mut i = lo;
    assert(v@.subrange(lo as int, lo as int) =~= Seq::<char>::empty());
    while i < hi
        invariant
            lo <= start <= i <= hi <= v.len(),
            r.len() + 1 == split(v@.subrange(lo as int, i as int), sep).len(),
            forall|j: int|
                0 <= j < r.len() ==> lo <= (#[trigger] r[j]).0 <= r[j].1 <= i && v@.subrange(
                    r[j].0 as int,
                    r[j].1 as int,
                ) == split(v@.subrange(lo as int, i as int), sep)[j],
            v@.subrange(start as int, i as int) == split(
                v@.subrange(lo as int, i as int),
                sep,
            ).last(),
        decreases hi - i,
    {
        let ghost before = v@.subrange(lo as int, i as int);
        let ghost after = v@.subrange(lo as int, i + 1);
        assert(after.drop_last() =~= before);
        assert(after.last() == v@[i as int]);
        proof {
            lemma_split_len(before, sep);
        }
        if is_split(sep, v[i]) {
            r.push((start, i));
            start = i + 1;
            assert(v@.subrange(start as int, i + 1) =~= Seq::<char>::empty());
        } else {
            assert(v@.subrange(start as int, i + 1) =~= v@.subrange(start as int, i as int).push(
                v@[i as int],
            ));
        }
        i = i + 1;
    }
    r.push((start, hi));
    r
}

/// `s` without its leading white space.
pub open spec fn trim_start(s: Seq<char>) -> Seq<char>
    decreases s.len(),
{
    if s.len() > 0 && is_space(s[0]) {
        trim_start(s.drop_first())
    } else {
        s
    }
}

/// `s` without its trailing white space.
pub open spec fn trim_end(s: Seq<char>) -> Seq<char>
    decreases s.len(),
{
    if s.len() > 0 && is_space(s.last()) {
        trim_end(s.drop_last())
    } else {
        s
    }
}

/// `s` without leading and trailing white space, as `str::trim` gives it.
pub open spec fn trim(s: Seq<char>) -> Seq<char> {
    trim_end(trim_start(s))
}

/// The bounds of `v[lo..hi]` with its white space trimmed.
pub fn trim_bounds(v: &Vec<char>, lo: usize, hi: usize) -> (r: (usize, usize))
    requires
        lo <= hi <= v.len(),
    ensures
        lo <= r.0 <= r.1 <= hi,
        v@.subrange(r.0 as int, r.1 as int) == trim(v@.subrange(lo as int, hi as int)),
{
    let mut a = lo;
    while a < hi && space(v[a])
        invariant
            lo <= a <= hi <= v.len(),
            trim_start(v@.subrange(lo as int, hi as int)) == trim_start(
                v@.subrange(a as int, hi as int),
            ),
        decreases hi - a,
    {
        assert(v@.subrange(a as int, hi as int).drop_first() =~= v@.subrange(a + 1, hi as int));
        a = a + 1;
    }
    let mut b = hi;
    while b > a && space(v[b - 1])
        invariant
            lo <= a <= b <= hi <= v.len(),
            trim_end(v@.subrange(a as int, hi as int)) == trim_end(
                v@.subrange(a as int, b as int),
            ),
        decreases b,
    {
        assert(v@.subrange(a as int, b as int).drop_last() =~= v@.subrange(a as int, b - 1));
        b = b - 1;
    }
    (a, b)
}

/// The value of a digit character in base `radix` (10 or 16), as
/// `char::to_digit` gives it.
pub open spec fn digit_of(c: char, radix: nat) -> Option<nat> {
    let u = c as u32 as nat;
    if 48 <= u <= 57 && u - 48 < radix {
        Some((u - 48) as nat)
    } else if radix > 10 && 97 <= u <= 122 && u - 87 < radix {
        Some((u - 87) as nat)
    } else if radix > 10 && 65 <= u <= 90 && u - 55 < radix {
        Some((u - 55) as nat)
    } else {
        None
    }
}

pub open spec fn all_digits(s: Seq<char>, radix: nat) -> bool {
    forall|i: int| 0 <= i < s.len() ==> (#[trigger] digit_of(s[i], radix)) is Some
}

/// The number that a run of digits in base `radix` writes.
pub open spec fn value(s: Seq<char>, radix: nat) -> nat
    decreases s.len(),
{
    if s.len() == 0 {
        0
    } else {
        value(s.drop_last(), radix) * radix + match digit_of(s.last(), radix) {
            Some(d) => d,
            None => 0,
        }
    }
}

/// `s` without one leading `+`.
pub open spec fn unsigned(s: Seq<char>) -> Seq<char> {
    if s.len() > 0 && s[0] == '+' {
        s.drop_first()
    } else {
        s
    }
}

/// The unsigned number `s` writes in base `radix`, as `from_str_radix` of an
/// unsigned type whose largest value is `max` reads it: an optional `+`, then
/// at least one digit, and no more than `max`.
pub open spec fn parse_num(s: Seq<char>, radix: nat, max: nat) -> Option<nat> {
    let d = unsigned(s);
    if d.len() > 0 && all_digits(d, radix) && value(d, radix) <= max {
        Some(value(d, radix))
    } else {
        None
    }
}

proof fn lemma_value_prefix(s: Seq<char>, radix: nat, k: int)
    requires
        radix >= 1,
        0 <= k <= s.len(),
    ensures
        value(s.take(k), radix) <= value(s, radix),
    decreases s.len(),
{
    if k < s.len() {
        let t = s.drop_last();
        lemma_value_prefix(t, radix, k);
        assert(t.take(k) =~= s.take(k));
        let x = value(t, radix);
        assert(x <= x * radix) by (nonlinear_arith)
            requires
                radix >= 1,
        ;
    } else {
        assert(s.take(k) =~= s);
    }
}

fn digit_value(c: char, radix: u32) -> (r: Option<u32>)
    requires
        radix == 10 || radix == 16,
    ensures
        match r {
            Some(d) => digit_of(c, radix as nat) == Some(d as nat) && d < radix,
            None => digit_of(c, radix as nat) is None,
        },
{
    let u = c as u32;
    if 48 <= u && u <= 57 && u - 48 < radix {
        Some(u - 48)
    } else if radix > 10 && 97 <= u && u <= 122 && u - 87 < radix {
        Some(u - 87)
    } else if radix > 10 && 65 <= u && u <= 90 && u - 55 < radix {
        Some(u - 55)
    } else {
        None
    }
}

/// Reads `v[lo..hi]` as an unsigned number in base `radix`, no more than `max`.
pub fn parse_num_at(v: &Vec<char>, lo: usize, hi: usize, radix: u32, max: u64) -> (r: Option<u64>)
    requires
        lo <= hi <= v.len(),
        radix == 10 || radix == 16,
    ensures
        match r {
            Some(x) => parse_num(v@.subrange(lo as int, hi as int), radix as nat, max as nat) == Some(
                x as nat,
            ),
            None => parse_num(v@.subrange(lo as int, hi as int), radix as nat, max as nat) is None,
        },
{
    let ghost s = v@.subrange(lo as int, hi as int);
    let mut a = lo;
    if lo < hi && v[lo] == '+' {
        a = lo + 1;
        assert(unsigned(s) =~= v@.subrange(a as int, hi as int));
    } else {
        assert(unsigned(s) =~= v@.subrange(a as int, hi as int));
    }
    let ghost d = v@.subrange(a as int, hi as int);
    if a == hi {
        return None;
    }
    let mut acc: u128 = 0;
    let mut i = a;
    assert(d.take(0) =~= Seq::<char>::empty());
    while i < hi
        invariant
            a <= i <= hi <= v.len(),
            lo <= a,
            d == v@.subrange(a as int, hi as int),
            unsigned(v@.subrange(lo as int, hi as int)) == d,
            radix == 10 || radix == 16,
            acc == value(d.take(i - a), radix as nat),
            acc <= max,
            all_digits(d.take(i - a), radix as nat),
        decreases hi - i,
    {
        let ghost k = i - a;
        assert(d.take(k + 1).drop_last() =~= d.take(k));
        assert(d.take(k + 1).last() == v@[i as int]);
        match digit_value(v[i], radix) {
            None => {
                assert(d[k] == v@[i as int]);
                assert(digit_of(d[k], radix as nat) is None);
                assert(!all_digits(d, radix as nat));
                return None;
            },
            Some(dig) => {
                assert(acc * (radix as u128) <= 0xffff_ffff_ffff_ffffu128 * 16) by (nonlinear_arith)
                    requires
                        acc <= 0xffff_ffff_ffff_ffffu128,
                        radix <= 16,
                ;
                acc = acc * (radix as u128) + (dig as u128);
                assert(all_digits(d.take(k + 1), radix as nat)) by {
                    assert forall|j: int| 0 <= j < d.take(k + 1).len() implies (#[trigger] digit_of(
                        d.take(k + 1)[j],
                        radix as nat,
                    )) is Some by {
                        if j < k {
                            assert(d.take(k + 1)[j] == d.take(k)[j]);
                        }
                    }
                }
                if acc > max as u128 {
                    proof {
                        lemma_value_prefix(d, radix as nat, k + 1);
                        assert(value(d, radix as nat) > max);
                    }
                    return None;
                }
                i = i + 1;
            },
        }
    }
    assert(d.take(hi - a) =~= d);
    Some(acc as u64)
}

} // verus!
