//! The game's own log, mirrored: which lines are kept, and how a printf-style
//! format expands with the argument slots the game's logger received.
use vstd::prelude::*;

use crate::process::{is_user_ptr, user_ptr};
use crate::text::{
    chars_of, dec, hex, push_char, push_dec, push_hex, push_signed, push_str, signed_dec,
};

verus! {

// ---- which lines are mirrored -------------------------------------------------------

/// `p` occurs in `s` at index `i`.
pub open spec fn occurs_at(s: Seq<char>, p: Seq<char>, i: int) -> bool {
    0 <= i && i + p.len() <= s.len() && s.subrange(i, i + p.len()) == p
}

/// `p` occurs somewhere in `s`.
pub open spec fn occurs(s: Seq<char>, p: Seq<char>) -> bool {
    exists|i: int| occurs_at(s, p, i)
}

fn matches_at(s: &Vec<char>, p: &Vec<char>, i: usize) -> (r: bool)
    ensures
        r == occurs_at(s@, p@, i as int),
{
    if p.len() > s.len() || i > s.len() - p.len() {
        return false;
    }
    let mut k: usize = 0;
    while k < p.len()
        invariant
            k <= p.len(),
            i + p.len() <= s.len(),
            forall|m: int| 0 <= m < k ==> s@[i + m] == p@[m],
        decreases p.len() - k,
    {
        if s[i + k] != p[k] {
            assert(s@.subrange(i as int, i + p.len())[k as int] != p@[k as int]);
            return false;
        }
        k = k + 1;
    }
    assert(s@.subrange(i as int, i + p.len()) =~= p@);
    true
}

fn find(s: &Vec<char>, p: &Vec<char>) -> (r: bool)
    ensures
        r == occurs(s@, p@),
{
    if p.len() > s.len() {
        return false;
    }
    let mut i: usize = 0;
    while i <= s.len() - p.len()
        invariant
            p.len() <= s.len(),
            forall|m: int| 0 <= m < i ==> !occurs_at(s@, p@, m),
        decreases s.len() - p.len() + 1 - i,
    {
        if matches_at(s, p, i) {
            return true;
        }
        if i == s.len() - p.len() {
            return false;
        }
        i = i + 1;
    }
    false
}

/// The lines the skin and equipment managers report: a format that starts
/// with either manager's name, or mentions `Skin` or `AccountItem`.
pub open spec fn is_wanted(fmt: Seq<char>) -> bool {
    ||| "ClientSkinItemManager"@.is_prefix_of(fmt)
    ||| "ClientCharacterEquipmentManager"@.is_prefix_of(fmt)
    ||| occurs(fmt, "Skin"@)
    ||| occurs(fmt, "AccountItem"@)
}

/// Whether a line with this format is mirrored.
pub fn wanted(fmt: &str) -> (r: bool)
    ensures
        r == is_wanted(fmt@),
{
    let s = chars_of(fmt);
    let skin_mgr = chars_of("ClientSkinItemManager");
    let equip_mgr = chars_of("ClientCharacterEquipmentManager");
    let skin = chars_of("Skin");
    let account = chars_of("AccountItem");
    let a = matches_at(&s, &skin_mgr, 0);
    let b = matches_at(&s, &equip_mgr, 0);
    proof {
        if a {
            assert(s@.subrange(0, skin_mgr@.len() as int) == skin_mgr@);
            assert(skin_mgr@.is_prefix_of(s@));
        }
        if skin_mgr@.is_prefix_of(s@) {
            assert(s@.subrange(0, skin_mgr@.len() as int) =~= skin_mgr@);
        }
        if b {
            assert(s@.subrange(0, equip_mgr@.len() as int) == equip_mgr@);
            assert(equip_mgr@.is_prefix_of(s@));
        }
        if equip_mgr@.is_prefix_of(s@) {
            assert(s@.subrange(0, equip_mgr@.len() as int) =~= equip_mgr@);
        }
    }
    a || b || find(&s, &skin) || find(&s, &account)
}

// ---- the format -----------------------------------------------------------------------

/// A piece of an expanded format: a character as it stands, or a conversion
/// of one argument slot.
#[derive(Clone, Copy)]
pub enum Piece {
    Text(char),
    Conv { conv: u8, wide: bool, slot: usize },
}

/// The bytes that may stand between `%` and its conversion: `l h I .` and
/// digits.
pub open spec fn is_modifier(c: u8) -> bool {
    c == 108 || c == 104 || c == 73 || c == 46 || (48 <= c <= 57)
}

/// The first index at or after `j` that holds no modifier.
pub open spec fn modifiers_end(b: Seq<u8>, j: int) -> int
    decreases b.len() - j,
{
    if 0 <= j < b.len() && is_modifier(b[j]) {
        modifiers_end(b, j + 1)
    } else {
        j
    }
}

/// The modifiers ask for a 64-bit argument: they contain `I64` or `ll`.
pub open spec fn is_wide(m: Seq<u8>) -> bool {
    exists|k: int| wide_at(m, k)
}

/// `I64` or `ll` starts at index `k` of `m`.
pub open spec fn wide_at(m: Seq<u8>, k: int) -> bool {
    0 <= k && ((k + 3 <= m.len() && m[k] == 73 && m[k + 1] == 54 && m[k + 2] == 52) || (k + 2
        <= m.len() && m[k] == 108 && m[k + 1] == 108))
}

/// The pieces of `b[i..]`, the next conversion taking argument slot `slot`.
/// A `%` that is the last byte, or that only modifiers follow, stands for
/// itself; `%%` is one `%`.
pub open spec fn pieces_from(b: Seq<u8>, i: int, slot: nat) -> Seq<Piece>
    decreases b.len() - i, 1int,
{
    if i < 0 || i >= b.len() {
        seq![]
    } else if b[i] != 37 || i + 1 >= b.len() {
        seq![Piece::Text(b[i] as char)] + pieces_from(b, i + 1, slot)
    } else {
        pieces_after_percent(b, i, slot)
    }
}

pub open spec fn pieces_after_percent(b: Seq<u8>, i: int, slot: nat) -> Seq<Piece>
    decreases b.len() - i, 0int,
{
    if 0 <= i < b.len() {
        let j = modifiers_end(b, i + 1);
        if j >= b.len() || j <= i {
            seq![Piece::Text('%')] + pieces_from(b, i + 1, slot)
        } else if b[j] == 37 {
            seq![Piece::Text('%')] + pieces_from(b, j + 1, slot)
        } else {
            seq![
                Piece::Conv {
                    conv: b[j],
                    wide: is_wide(b.subrange(i + 1, j)),
                    slot: slot as usize,
                },
            ] + pieces_from(b, j + 1, slot + 1)
        }
    } else {
        seq![]
    }
}

/// The pieces of a whole format.
pub open spec fn pieces(b: Seq<u8>) -> Seq<Piece> {
    pieces_from(b, 0, 0)
}

/// The value of an argument slot; 0 past the slots given.
pub open spec fn arg_at(args: Seq<usize>, slot: int) -> usize {
    if 0 <= slot < args.len() {
        args[slot]
    } else {
        0
    }
}

/// The text read for a `%s` slot; empty where none was given.
pub open spec fn text_at(strs: Seq<Option<String>>, slot: int) -> Seq<char> {
    if 0 <= slot < strs.len() && strs[slot] is Some {
        strs[slot]->0@
    } else {
        seq![]
    }
}

/// What a conversion writes: `d i` signed, `u` unsigned, `x X` lower-case
/// hexadecimal, 32 bits of the slot unless wide; `s` the text at a user
/// pointer, `(null)` otherwise; any other conversion the slot in decimal.
pub open spec fn conv_text(conv: u8, wide: bool, arg: usize, text: Seq<char>) -> Seq<char> {
    if conv == 100 || conv == 105 {
        if wide {
            signed_dec((arg as i64) as int)
        } else {
            signed_dec((arg as u32 as i32) as int)
        }
    } else if conv == 117 {
        if wide {
            dec((arg as u64) as nat)
        } else {
            dec((arg as u32) as nat)
        }
    } else if conv == 120 || conv == 88 {
        if wide {
            hex((arg as u64) as nat)
        } else {
            hex((arg as u32) as nat)
        }
    } else if conv == 115 {
        if is_user_ptr(arg as u64) {
            text
        } else {
            "(null)"@
        }
    } else {
        dec(arg as nat)
    }
}

pub open spec fn piece_text(p: Piece, args: Seq<usize>, strs: Seq<Option<String>>) -> Seq<char> {
    match p {
        Piece::Text(c) => seq![c],
        Piece::Conv { conv, wide, slot } => conv_text(
            conv,
            wide,
            arg_at(args, slot as int),
            text_at(strs, slot as int),
        ),
    }
}

/// The expansion of a list of pieces.
pub open spec fn render(ps: Seq<Piece>, args: Seq<usize>, strs: Seq<Option<String>>) -> Seq<char>
    decreases ps.len(),
{
    if ps.len() == 0 {
        seq![]
    } else {
        render(ps.drop_last(), args, strs) + piece_text(ps.last(), args, strs)
    }
}

/// The slots that `%s` conversions read text from: those holding a user
/// pointer, in format order.
pub open spec fn text_slots(ps: Seq<Piece>, args: Seq<usize>) -> Seq<usize>
    decreases ps.len(),
{
    if ps.len() == 0 {
        seq![]
    } else {
        let rest = text_slots(ps.drop_last(), args);
        match ps.last() {
            Piece::Conv { conv, wide, slot } => if conv == 115 && is_user_ptr(
                arg_at(args, slot as int) as u64,
            ) {
                rest.push(slot)
            } else {
                rest
            },
            Piece::Text(_) => rest,
        }
    }
}

proof fn lemma_modifiers_end(b: Seq<u8>, j: int)
    requires
        0 <= j <= b.len(),
    ensures
        j <= modifiers_end(b, j) <= b.len(),
        forall|k: int| j <= k < modifiers_end(b, j) ==> is_modifier(#[trigger] b[k]),
        modifiers_end(b, j) < b.len() ==> !is_modifier(b[modifiers_end(b, j)]),
    decreases b.len() - j,
{
    if j < b.len() && is_modifier(b[j]) {
        lemma_modifiers_end(b, j + 1);
    }
}

fn wide_modifiers(b: &[u8], lo: usize, hi: usize) -> (r: bool)
    requires
        lo <= hi <= b.len(),
    ensures
        r == is_wide(b@.subrange(lo as int, hi as int)),
{
    let ghost m = b@.subrange(lo as int, hi as int);
    let mut k: usize = lo;
    while k < hi
        invariant
            lo <= k <= hi <= b.len(),
            m == b@.subrange(lo as int, hi as int),
            forall|q: int| 0 <= q < k - lo ==> !#[trigger] wide_at(m, q),
        decreases hi - k,
    {
        if hi - k >= 3 && b[k] == 73 && b[k + 1] == 54 && b[k + 2] == 52 {
            assert(wide_at(m, k - lo));
            return true;
        }
        if hi - k >= 2 && b[k] == 108 && b[k + 1] == 108 {
            assert(wide_at(m, k - lo));
            return true;
        }
        k = k + 1;
    }
    false
}

/// The pieces of a format.
pub fn parse_format(b: &[u8]) -> (r: Vec<Piece>)
    ensures
        r@ == pieces(b@),
{
    let mut r: Vec<Piece> = Vec::new();
    let mut i: usize = 0;
    let mut slot: usize = 0;
    while i < b.len()
        invariant
            i <= b.len(),
            slot <= i,
            r@ + pieces_from(b@, i as int, slot as nat) == pieces(b@),
        decreases b.len() - i,
    {
        let ghost before = pieces_from(b@, i as int, slot as nat);
        if b[i] != 37 || i + 1 >= b.len() {
            r.push(Piece::Text(b[i] as char));
            assert(before == seq![Piece::Text(b@[i as int] as char)] + pieces_from(b@, i + 1, slot as nat));
            i = i + 1;
        } else {
            assert(before == pieces_after_percent(b@, i as int, slot as nat));
            let mut j = i + 1;
            proof {
                lemma_modifiers_end(b@, i + 1);
            }
            while j < b.len() && (b[j] == 108 || b[j] == 104 || b[j] == 73 || b[j] == 46 || (48
                <= b[j] && b[j] <= 57))
                invariant
                    i + 1 <= j <= b.len(),
                    modifiers_end(b@, i + 1) == modifiers_end(b@, j as int),
                decreases b.len() - j,
            {
                j = j + 1;
            }
            if j >= b.len() {
                r.push(Piece::Text('%'));
                i = i + 1;
            } else if b[j] == 37 {
                r.push(Piece::Text('%'));
                i = j + 1;
            } else {
                let wide = wide_modifiers(b, i + 1, j);
                r.push(Piece::Conv { conv: b[j], wide, slot });
                slot = slot + 1;
                i = j + 1;
            }
            assert(r@ + pieces_from(b@, i as int, slot as nat) =~= pieces(b@));
        }
    }
    assert(pieces_from(b@, i as int, slot as nat) =~= Seq::<Piece>::empty());
    assert(r@ =~= pieces(b@));
    r
}

fn arg(args: &[usize], slot: usize) -> (r: usize)
    ensures
        r == arg_at(args@, slot as int),
{
    if slot < args.len() {
        args[slot]
    } else {
        0
    }
}

fn push_conv(out: &mut String, conv: u8, wide: bool, slot: usize, args: &[usize], strs: &[Option<String>])
    ensures
        final(out)@ == old(out)@ + conv_text(conv, wide, arg_at(args@, slot as int), text_at(strs@, slot as int)),
{
    let a = arg(args, slot);
    if conv == 100 || conv == 105 {
        if wide {
            push_signed(out, a as i64);
        } else {
            push_signed(out, (a as u32) as i32 as i64);
        }
    } else if conv == 117 {
        if wide {
            push_dec(out, a as u64);
        } else {
            push_dec(out, (a as u32) as u64);
        }
    } else if conv == 120 || conv == 88 {
        if wide {
            push_hex(out, a as u64);
        } else {
            push_hex(out, (a as u32) as u64);
        }
    } else if conv == 115 {
        if user_ptr(a as u64) {
            if slot < strs.len() {
                match &strs[slot] {
                    Some(t) => push_str(out, t.as_str()),
                    None => {},
                }
            }
            assert(final(out)@ =~= old(out)@ + text_at(strs@, slot as int));
        } else {
            push_str(out, "(null)");
        }
    } else {
        push_dec(out, a as u64);
    }
}

/// Expands `%d %u %x %s %I64u %llu %%` in a format with the given argument
/// slots; `strs[k]` is the text at the pointer in slot `k`, for each slot that
/// `string_slots` names.
pub fn format(fmt: &[u8], args: &[usize], strs: &[Option<String>]) -> (r: String)
    ensures
        r@ == render(pieces(fmt@), args@, strs@),
{
    let ps = parse_format(fmt);
    let mut out = String::new();
    let mut k: usize = 0;
    assert(ps@.take(0) =~= Seq::<Piece>::empty());
    while k < ps.len()
        invariant
            k <= ps.len(),
            out@ == render(ps@.take(k as int), args@, strs@),
        decreases ps.len() - k,
    {
        assert(ps@.take(k + 1).drop_last() =~= ps@.take(k as int));
        match ps[k] {
            Piece::Text(c) => push_char(&mut out, c),
            Piece::Conv { conv, wide, slot } => push_conv(&mut out, conv, wide, slot, args, strs),
        }
        k = k + 1;
    }
    assert(ps@.take(k as int) =~= ps@);
    out
}

/// The argument slots whose text a format reads: those of `%s` conversions
/// that hold a user pointer, in format order.
pub fn string_slots(fmt: &[u8], args: &[usize]) -> (r: Vec<usize>)
    ensures
        r@ == text_slots(pieces(fmt@), args@),
{
    let ps = parse_format(fmt);
    let mut r: Vec<usize> = Vec::new();
    let mut k: usize = 0;
    assert(ps@.take(0) =~= Seq::<Piece>::empty());
    while k < ps.len()
        invariant
            k <= ps.len(),
            r@ == text_slots(ps@.take(k as int), args@),
        decreases ps.len() - k,
    {
        assert(ps@.take(k + 1).drop_last() =~= ps@.take(k as int));
        match ps[k] {
            Piece::Conv { conv, wide: _, slot } => {
                if conv == 115 && user_ptr(arg(args, slot) as u64) {
                    r.push(slot);
                }
            },
            Piece::Text(_) => {},
        }
        k = k + 1;
    }
    assert(ps@.take(k as int) =~= ps@);
    r
}

/// The conversions' texts from the argument slot `a`: without `I64` or `ll`
/// the slot's low 32 bits are read (as a signed number for `d` and `i`),
/// with them the whole slot; `x` and `X` write lower-case hexadecimal; `s`
/// writes the text at a user pointer and `(null)` for any other slot; any
/// other conversion writes the whole slot in decimal.
pub proof fn law_conversions(a: usize, t: Seq<char>, other: u8)
    requires
        other != 100 && other != 105 && other != 117 && other != 120 && other != 88 && other != 115,
    ensures
        conv_text(120, false, a, t) == hex(a as nat % 0x1_0000_0000),
        conv_text(88, false, a, t) == hex(a as nat % 0x1_0000_0000),
        conv_text(120, true, a, t) == hex(a as nat),
        conv_text(88, true, a, t) == hex(a as nat),
        conv_text(117, false, a, t) == dec(a as nat % 0x1_0000_0000),
        conv_text(117, true, a, t) == dec(a as nat),
        conv_text(100, false, a, t) == conv_text(105, false, a, t),
        conv_text(100, true, a, t) == conv_text(105, true, a, t),
        conv_text(100, false, a, t) == signed_dec(
            if a as int % 0x1_0000_0000 >= 0x8000_0000 {
                a as int % 0x1_0000_0000 - 0x1_0000_0000
            } else {
                a as int % 0x1_0000_0000
            },
        ),
        conv_text(100, true, a, t) == signed_dec(
            if a as int >= 0x8000_0000_0000_0000 {
                a as int - 0x1_0000_0000_0000_0000
            } else {
                a as int
            },
        ),
        0x10000 <= a && a < 0x7FFF_FFFF_FFFF ==> conv_text(115, false, a, t) == t,
        !(0x10000 <= a && a < 0x7FFF_FFFF_FFFF) ==> conv_text(115, false, a, t) == "(null)"@,
        conv_text(other, false, a, t) == dec(a as nat),
        conv_text(other, true, a, t) == dec(a as nat),
{
    let b = a as u64;
    assert((b as u32) as u64 == b % 0x1_0000_0000) by (bit_vector);
    assert(b as usize == a);
    assert((a as u32) == (b as u32)) by (bit_vector)
        requires
            b == a as u64,
    ;
    assert(b % 0x1_0000_0000 >= 0x8000_0000 ==> ((b as u32) as i32) as i64 + 0x1_0000_0000 == (b
        % 0x1_0000_0000) as i64) by (bit_vector);
    assert(b % 0x1_0000_0000 < 0x8000_0000 ==> ((b as u32) as i32) as i64 == (b % 0x1_0000_0000) as i64)
        by (bit_vector);
    assert(b >= 0x8000_0000_0000_0000 ==> (b as i64) as i128 + 0x1_0000_0000_0000_0000 == b as i128)
        by (bit_vector);
    assert(b < 0x8000_0000_0000_0000 ==> (b as i64) as i128 == b as i128) by (bit_vector);
}

/// The number of conversions among pieces.
pub open spec fn convs_in(ps: Seq<Piece>) -> nat
    decreases ps.len(),
{
    if ps.len() == 0 {
        0
    } else {
        convs_in(ps.drop_last()) + if ps.last() is Conv {
            1nat
        } else {
            0nat
        }
    }
}

/// Every conversion among `ps` reads slot `first` plus the number of
/// conversions before it.
pub open spec fn numbered_from(ps: Seq<Piece>, first: nat) -> bool {
    forall|k: int|
        0 <= k < ps.len() ==> (#[trigger] ps[k] matches Piece::Conv { slot, .. } ==> slot == first
            + convs_in(ps.take(k)))
}

proof fn lemma_convs_concat(x: Seq<Piece>, y: Seq<Piece>)
    ensures
        convs_in(x + y) == convs_in(x) + convs_in(y),
    decreases y.len(),
{
    if y.len() > 0 {
        lemma_convs_concat(x, y.drop_last());
        assert((x + y).drop_last() =~= x + y.drop_last());
        assert((x + y).last() == y.last());
    } else {
        assert(x + y =~= x);
    }
}

proof fn lemma_numbered_cons(p: Piece, r: Seq<Piece>, first: nat)
    requires
        p matches Piece::Conv { slot, .. } ==> slot == first,
        numbered_from(r, first + if p is Conv {
            1nat
        } else {
            0nat
        }),
    ensures
        numbered_from(seq![p] + r, first),
{
    let ps = seq![p] + r;
    assert(convs_in(seq![p]) == (if p is Conv { 1nat } else { 0nat })) by {
        reveal_with_fuel(convs_in, 2);
        assert(seq![p].drop_last() =~= Seq::<Piece>::empty());
    }
    assert forall|k: int| 0 <= k < ps.len() implies (#[trigger] ps[k] matches Piece::Conv {
        slot,
        ..
    } ==> slot == first + convs_in(ps.take(k))) by {
        if k == 0 {
            assert(ps.take(0) =~= Seq::<Piece>::empty());
        } else {
            assert(ps[k] == r[k - 1]);
            assert(ps.take(k) =~= seq![p] + r.take(k - 1));
            lemma_convs_concat(seq![p], r.take(k - 1));
        }
    }
}

proof fn lemma_numbered(b: Seq<u8>, i: int, slot: nat)
    requires
        b.len() <= usize::MAX,
        0 <= i,
        slot <= i,
    ensures
        numbered_from(pieces_from(b, i, slot), slot),
    decreases b.len() - i,
{
    if i >= b.len() {
        assert(pieces_from(b, i, slot) =~= Seq::<Piece>::empty());
    } else if b[i] != 37 || i + 1 >= b.len() {
        lemma_numbered(b, i + 1, slot);
        lemma_numbered_cons(Piece::Text(b[i] as char), pieces_from(b, i + 1, slot), slot);
    } else {
        assert(pieces_from(b, i, slot) == pieces_after_percent(b, i, slot));
        let j = modifiers_end(b, i + 1);
        lemma_modifiers_end(b, i + 1);
        if j >= b.len() || j <= i {
            lemma_numbered(b, i + 1, slot);
            lemma_numbered_cons(Piece::Text('%'), pieces_from(b, i + 1, slot), slot);
            assert(pieces_from(b, i, slot) == seq![Piece::Text('%')] + pieces_from(b, i + 1, slot));
        } else if b[j] == 37 {
            lemma_numbered(b, j + 1, slot);
            lemma_numbered_cons(Piece::Text('%'), pieces_from(b, j + 1, slot), slot);
            assert(pieces_from(b, i, slot) == seq![Piece::Text('%')] + pieces_from(b, j + 1, slot));
        } else {
            lemma_numbered(b, j + 1, slot + 1);
            let c = Piece::Conv { conv: b[j], wide: is_wide(b.subrange(i + 1, j)), slot: slot as usize };
            lemma_numbered_cons(c, pieces_from(b, j + 1, slot + 1), slot);
            assert(pieces_from(b, i, slot) == seq![c] + pieces_from(b, j + 1, slot + 1));
        }
    }
}

/// Conversions take the argument slots in order and `%%` takes none: the
/// n-th conversion of a format (counting from 0, `%%` and a lone `%` not
/// counted) reads slot n.
pub proof fn law_conversion_slots(b: Seq<u8>, k: int)
    requires
        b.len() <= usize::MAX,
        0 <= k < pieces(b).len(),
    ensures
        pieces(b)[k] matches Piece::Conv { slot, .. } ==> slot == convs_in(pieces(b).take(k)),
{
    lemma_numbered(b, 0, 0);
}

proof fn lemma_modifiers_end_shift(p: Seq<u8>, f: Seq<u8>, j: int)
    requires
        0 <= j,
    ensures
        modifiers_end(p + f, p.len() + j) == p.len() + modifiers_end(f, j),
    decreases f.len() - j,
{
    if j < f.len() {
        assert((p + f)[p.len() + j] == f[j]);
        if is_modifier(f[j]) {
            lemma_modifiers_end_shift(p, f, j + 1);
        }
    }
}

proof fn lemma_pieces_shift(p: Seq<u8>, f: Seq<u8>, i: int, slot: nat)
    requires
        0 <= i,
    ensures
        pieces_from(p + f, p.len() + i, slot) == pieces_from(f, i, slot),
    decreases f.len() - i,
{
    let b = p + f;
    let n = p.len() as int;
    if i < f.len() {
        assert(b[n + i] == f[i]);
        if f[i] != 37 || i + 1 >= f.len() {
            lemma_pieces_shift(p, f, i + 1, slot);
        } else {
            assert(pieces_from(b, n + i, slot) == pieces_after_percent(b, n + i, slot));
            assert(pieces_from(f, i, slot) == pieces_after_percent(f, i, slot));
            lemma_modifiers_end_shift(p, f, i + 1);
            lemma_modifiers_end(f, i + 1);
            let j = modifiers_end(f, i + 1);
            if j >= f.len() || j <= i {
                lemma_pieces_shift(p, f, i + 1, slot);
            } else {
                assert(b[n + j] == f[j]);
                assert(b.subrange(n + i + 1, n + j) =~= f.subrange(i + 1, j));
                if f[j] == 37 {
                    lemma_pieces_shift(p, f, j + 1, slot);
                } else {
                    lemma_pieces_shift(p, f, j + 1, slot + 1);
                }
            }
        }
    } else {
        assert(pieces_from(b, n + i, slot) =~= Seq::<Piece>::empty());
        assert(pieces_from(f, i, slot) =~= Seq::<Piece>::empty());
    }
}

/// `%%` is a literal `%` and takes no slot: a format that starts with `%%`
/// expands as `%` followed by the rest of the format, numbered as if it
/// stood alone.
pub proof fn law_percent_percent(f: Seq<u8>)
    ensures
        pieces(seq![37u8, 37u8] + f) == seq![Piece::Text('%')] + pieces(f),
{
    let b = seq![37u8, 37u8] + f;
    lemma_modifiers_end(b, 1);
    assert(modifiers_end(b, 1) == 1);
    lemma_pieces_shift(seq![37u8, 37u8], f, 0, 0);
    assert(pieces_from(b, 0, 0) == pieces_after_percent(b, 0, 0));
}

} // verus!
