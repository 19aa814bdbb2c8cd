//! The persisted choices: prototype -> (skin item, output item), one line per
//! prototype as `prototype=skin=output`, read once at attach and rewritten on
//! every change.
use vstd::prelude::*;

use crate::scan::{
    lemma_split_concat, lemma_split_whole, parse_num, parse_num_at, split,
    split_bounds, trim, trim_bounds, Sep,
};
use crate::text::{dec, dec_vec, push_char, push_dec};

verus! {

/// One stored choice: (prototype, skin item, output item).
pub type Choice = (u32, u32, u32);

/// The choices, in the order the file lists them.
pub struct Store {
    rows: Vec<Choice>,
}

// ---- the order of the file's lines ------------------------------------------------

/// Strict lexicographic order of character sequences, by code point, as
/// `str`'s `Ord` orders ASCII text.
pub open spec fn lex_lt(a: Seq<char>, b: Seq<char>) -> bool
    decreases a.len(),
{
    if a.len() == 0 {
        b.len() > 0
    } else if b.len() == 0 {
        false
    } else if (a[0] as int) < (b[0] as int) {
        true
    } else if a[0] == b[0] {
        lex_lt(a.drop_first(), b.drop_first())
    } else {
        false
    }
}

/// The start of a prototype's line, which decides where the line sorts.
pub open spec fn key_text(p: u32) -> Seq<char> {
    dec(p as nat).push('=')
}

/// Prototype `p`'s line sorts before prototype `q`'s.
pub open spec fn key_lt(p: u32, q: u32) -> bool {
    lex_lt(key_text(p), key_text(q))
}

/// The rows are in strictly increasing line order.
pub open spec fn sorted(rows: Seq<Choice>) -> bool {
    forall|i: int, j: int| 0 <= i < j < rows.len() ==> key_lt(#[trigger] rows[i].0, #[trigger] rows[j].0)
}

/// No prototype occurs twice.
pub open spec fn unique_keys(rows: Seq<Choice>) -> bool {
    forall|i: int, j: int|
        0 <= i < rows.len() && 0 <= j < rows.len() && i != j ==> #[trigger] rows[i].0 != #[trigger] rows[j].0
}

proof fn lemma_lex_irreflexive(a: Seq<char>)
    ensures
        !lex_lt(a, a),
    decreases a.len(),
{
    if a.len() > 0 {
        lemma_lex_irreflexive(a.drop_first());
    }
}

proof fn lemma_lex_transitive(a: Seq<char>, b: Seq<char>, c: Seq<char>)
    requires
        lex_lt(a, b),
        lex_lt(b, c),
    ensures
        lex_lt(a, c),
    decreases a.len(),
{
    if a.len() > 0 && b.len() > 0 && c.len() > 0 && a[0] == b[0] && b[0] == c[0] {
        lemma_lex_transitive(a.drop_first(), b.drop_first(), c.drop_first());
    }
}

proof fn lemma_lex_total(a: Seq<char>, b: Seq<char>)
    requires
        a != b,
    ensures
        lex_lt(a, b) || lex_lt(b, a),
    decreases a.len(),
{
    if a.len() == 0 {
        if b.len() == 0 {
            assert(a =~= b);
        }
    } else if b.len() > 0 && a[0] == b[0] {
        if a.drop_first() == b.drop_first() {
            assert(a.drop_first().len() == a.len() - 1);
            assert(b.drop_first().len() == b.len() - 1);
            assert(a.len() == b.len());
            assert(a =~= b) by {
                assert forall|i: int| 0 <= i < a.len() implies a[i] == b[i] by {
                    if i > 0 {
                        assert(a[i] == a.drop_first()[i - 1]);
                        assert(b[i] == b.drop_first()[i - 1]);
                    }
                }
            }
        }
        lemma_lex_total(a.drop_first(), b.drop_first());
    } else if b.len() > 0 {
        assert((a[0] as int) != (b[0] as int));
    }
}

proof fn lemma_dec_digits(n: nat)
    ensures
        dec(n).len() > 0,
        forall|i: int| 0 <= i < dec(n).len() ==> 48 <= (#[trigger] dec(n)[i]) as u32 <= 57,
    decreases n,
{
    if n >= 10 {
        lemma_dec_digits(n / 10);
        let d = dec(n / 10);
        assert forall|i: int| 0 <= i < dec(n).len() implies 48 <= (#[trigger] dec(n)[i]) as u32 <= 57 by {
            if i < d.len() {
                assert(dec(n)[i] == d[i]);
            }
        }
    }
}

proof fn lemma_dec_value(n: nat)
    ensures
        crate::scan::value(dec(n), 10) == n,
        crate::scan::all_digits(dec(n), 10),
    decreases n,
{
    lemma_dec_digits(n);
    let d = n % 10;
    assert(((48 + d) as char) as u32 == 48 + d);
    assert(crate::text::digit_char(d) as u32 as nat == 48 + d);
    assert(crate::scan::digit_of(crate::text::digit_char(d), 10) == Some(d));
    if n >= 10 {
        lemma_dec_value(n / 10);
        assert(dec(n).drop_last() =~= dec(n / 10));
        assert(dec(n).last() == crate::text::digit_char(d));
        assert(n == (n / 10) * 10 + n % 10) by (nonlinear_arith);
        assert(crate::scan::value(dec(n), 10) == crate::scan::value(dec(n / 10), 10) * 10 + d);
    } else {
        assert(dec(n).drop_last() =~= Seq::<char>::empty());
        assert(dec(n).last() == crate::text::digit_char(d));
        assert(crate::scan::value(dec(n).drop_last(), 10) == 0);
        assert(crate::scan::value(dec(n), 10) == d);
    }
    assert forall|i: int| 0 <= i < dec(n).len() implies (#[trigger] crate::scan::digit_of(
        dec(n)[i],
        10,
    )) is Some by {
        assert(48 <= dec(n)[i] as u32 <= 57);
    }
}

/// Decimal digits read back as written.
pub proof fn lemma_parse_dec(n: nat, max: nat)
    requires
        n <= max,
    ensures
        parse_num(dec(n), 10, max) == Some(n),
        trim(dec(n)) == dec(n),
{
    lemma_dec_value(n);
    lemma_dec_digits(n);
    assert(dec(n)[0] != '+');
    assert(crate::scan::unsigned(dec(n)) == dec(n));
    assert(!crate::scan::is_space(dec(n)[0]));
    assert(crate::scan::trim_start(dec(n)) == dec(n));
    assert(!crate::scan::is_space(dec(n).last()));
}

proof fn lemma_key_text_injective(p: u32, q: u32)
    requires
        key_text(p) == key_text(q),
    ensures
        p == q,
{
    assert(key_text(p).drop_last() =~= dec(p as nat));
    assert(key_text(q).drop_last() =~= dec(q as nat));
    lemma_dec_value(p as nat);
    lemma_dec_value(q as nat);
}

proof fn lemma_key_total(p: u32, q: u32)
    requires
        p != q,
    ensures
        key_lt(p, q) || key_lt(q, p),
{
    if key_text(p) == key_text(q) {
        lemma_key_text_injective(p, q);
    }
    lemma_lex_total(key_text(p), key_text(q));
}

proof fn lemma_sorted_unique(rows: Seq<Choice>)
    requires
        sorted(rows),
    ensures
        unique_keys(rows),
{
    assert forall|i: int, j: int|
        0 <= i < rows.len() && 0 <= j < rows.len() && i != j implies #[trigger] rows[i].0
        != #[trigger] rows[j].0 by {
        if rows[i].0 == rows[j].0 {
            lemma_lex_irreflexive(key_text(rows[i].0));
            if i < j {
                assert(key_lt(rows[i].0, rows[j].0));
            } else {
                assert(key_lt(rows[j].0, rows[i].0));
            }
        }
    }
}

// ---- the choices as a map ------------------------------------------------------------

/// The choices the rows hold, by prototype.
pub open spec fn to_map(rows: Seq<Choice>) -> Map<u32, (u32, u32)> {
    Map::new(
        |p: u32| exists|i: int| 0 <= i < rows.len() && rows[i].0 == p,
        |p: u32|
            {
                let i = choose|i: int| 0 <= i < rows.len() && rows[i].0 == p;
                (rows[i].1, rows[i].2)
            },
    )
}

proof fn lemma_to_map_at(rows: Seq<Choice>, i: int)
    requires
        unique_keys(rows),
        0 <= i < rows.len(),
    ensures
        to_map(rows).contains_key(rows[i].0),
        to_map(rows)[rows[i].0] == (rows[i].1, rows[i].2),
{
    let p = rows[i].0;
    assert(exists|k: int| 0 <= k < rows.len() && rows[k].0 == p);
    let k = choose|k: int| 0 <= k < rows.len() && rows[k].0 == p;
    assert(k == i);
}

impl View for Store {
    type V = Map<u32, (u32, u32)>;

    /// The choices the rows hold.
    open spec fn view(&self) -> Map<u32, (u32, u32)> {
        to_map(self.rows())
    }
}

impl Store {
    /// The choices in the order the file lists them.
    pub closed spec fn rows(&self) -> Seq<Choice> {
        self.rows@
    }

    /// The rows are in line order.
    pub open spec fn wf(&self) -> bool {
        sorted(self.rows())
    }

    /// Inserts or replaces the choice for `prototype`, keeping line order.
    fn insert(&mut self, prototype: u32, skin: u32, output: u32)
        requires
            old(self).wf(),
        ensures
            final(self).wf(),
            final(self)@ == old(self)@.insert(prototype, (skin, output)),
    {
        let ghost rows0 = self.rows@;
        proof {
            lemma_sorted_unique(rows0);
        }
        let n = self.rows.len();
        let mut i: usize = 0;
        while i < n && key_less(self.rows[i].0, prototype)
            invariant
                n == self.rows.len(),
                self.rows@ == rows0,
                i <= n,
                forall|j: int| 0 <= j < i ==> key_lt(#[trigger] rows0[j].0, prototype),
            decreases n - i,
        {
            i = i + 1;
        }
        let e: Choice = (prototype, skin, output);
        if i < n && self.rows[i].0 == prototype {
            self.rows.set(i, e);
            let ghost rows1 = self.rows@;
            assert(sorted(rows1)) by {
                assert forall|a: int, b: int| 0 <= a < b < rows1.len() implies key_lt(
                    #[trigger] rows1[a].0,
                    #[trigger] rows1[b].0,
                ) by {
                    assert(key_lt(rows0[a].0, rows0[b].0));
                }
            }
            proof {
                lemma_sorted_unique(rows1);
                assert(to_map(rows1) =~= to_map(rows0).insert(prototype, (skin, output))) by {
                    assert forall|p: u32| #[trigger]
                        to_map(rows1).contains_key(p) == to_map(rows0).insert(
                            prototype,
                            (skin, output),
                        ).contains_key(p) by {
                        if to_map(rows0).contains_key(p) {
                            let k = choose|k: int| 0 <= k < rows0.len() && rows0[k].0 == p;
                            assert(rows1[k].0 == p);
                        }
                        if to_map(rows1).contains_key(p) {
                            let k = choose|k: int| 0 <= k < rows1.len() && rows1[k].0 == p;
                            assert(rows0[k].0 == p);
                        }
                    }
                    assert forall|p: u32| #[trigger] to_map(rows1).contains_key(p) implies to_map(
                        rows1,
                    )[p] == to_map(rows0).insert(prototype, (skin, output))[p] by {
                        let k = choose|k: int| 0 <= k < rows1.len() && rows1[k].0 == p;
                        lemma_to_map_at(rows1, k);
                        lemma_to_map_at(rows0, k);
                    }
                }
            }
        } else {
            self.rows.insert(i, e);
            let ghost rows1 = self.rows@;
            proof {
                if i < n {
                    lemma_key_total(rows0[i as int].0, prototype);
                    assert(key_lt(prototype, rows0[i as int].0));
                }
                assert(sorted(rows1)) by {
                    assert forall|a: int, b: int| 0 <= a < b < rows1.len() implies key_lt(
                        #[trigger] rows1[a].0,
                        #[trigger] rows1[b].0,
                    ) by {
                        if b < i {
                            assert(key_lt(rows0[a].0, rows0[b].0));
                        } else if b == i {
                            assert(key_lt(rows0[a].0, prototype));
                        } else if a < i {
                            assert(rows1[b] == rows0[b - 1]);
                            if b - 1 > i {
                                assert(key_lt(rows0[i as int].0, rows0[b - 1].0));
                                lemma_lex_transitive(
                                    key_text(prototype),
                                    key_text(rows0[i as int].0),
                                    key_text(rows0[b - 1].0),
                                );
                            }
                            lemma_lex_transitive(
                                key_text(rows0[a].0),
                                key_text(prototype),
                                key_text(rows0[b - 1].0),
                            );
                        } else if a == i {
                            assert(rows1[b] == rows0[b - 1]);
                            if b - 1 > i {
                                assert(key_lt(rows0[i as int].0, rows0[b - 1].0));
                                lemma_lex_transitive(
                                    key_text(prototype),
                                    key_text(rows0[i as int].0),
                                    key_text(rows0[b - 1].0),
                                );
                            }
                        } else {
                            assert(key_lt(rows0[a - 1].0, rows0[b - 1].0));
                        }
                    }
                }
                lemma_sorted_unique(rows1);
                assert(!to_map(rows0).contains_key(prototype)) by {
                    if to_map(rows0).contains_key(prototype) {
                        let k = choose|k: int| 0 <= k < rows0.len() && rows0[k].0 == prototype;
                        if k < i {
                            lemma_lex_irreflexive(key_text(prototype));
                        } else if k > i {
                            assert(key_lt(rows0[i as int].0, rows0[k].0));
                            lemma_lex_transitive(
                                key_text(prototype),
                                key_text(rows0[i as int].0),
                                key_text(prototype),
                            );
                            lemma_lex_irreflexive(key_text(prototype));
                        }
                    }
                }
                assert(to_map(rows1) =~= to_map(rows0).insert(prototype, (skin, output))) by {
                    assert forall|p: u32| #[trigger]
                        to_map(rows1).contains_key(p) == to_map(rows0).insert(
                            prototype,
                            (skin, output),
                        ).contains_key(p) by {
                        if to_map(rows0).contains_key(p) {
                            let k = choose|k: int| 0 <= k < rows0.len() && rows0[k].0 == p;
                            if k < i {
                                assert(rows1[k].0 == p);
                            } else {
                                assert(rows1[k + 1].0 == p);
                            }
                        }
                        if p == prototype {
                            assert(rows1[i as int].0 == p);
                        }
                        if to_map(rows1).contains_key(p) && p != prototype {
                            let k = choose|k: int| 0 <= k < rows1.len() && rows1[k].0 == p;
                            if k < i {
                                assert(rows0[k].0 == p);
                            } else {
                                assert(rows0[k - 1].0 == p);
                            }
                        }
                    }
                    assert forall|p: u32| #[trigger] to_map(rows1).contains_key(p) implies to_map(
                        rows1,
                    )[p] == to_map(rows0).insert(prototype, (skin, output))[p] by {
                        let k = choose|k: int| 0 <= k < rows1.len() && rows1[k].0 == p;
                        lemma_to_map_at(rows1, k);
                        if k < i {
                            lemma_to_map_at(rows0, k);
                        } else if k > i {
                            lemma_to_map_at(rows0, k - 1);
                        }
                    }
                }
            }
        }
    }
}

fn lex_less(a: &Vec<char>, b: &Vec<char>) -> (r: bool)
    ensures
        r == lex_lt(a@, b@),
{
    let mut i: usize = 0;
    assert(a@.skip(0) =~= a@);
    assert(b@.skip(0) =~= b@);
    while i < a.len() && i < b.len()
        invariant
            i <= a.len(),
            i <= b.len(),
            lex_lt(a@, b@) == lex_lt(a@.skip(i as int), b@.skip(i as int)),
        decreases a.len() - i,
    {
        assert(a@.skip(i as int)[0] == a@[i as int]);
        assert(b@.skip(i as int)[0] == b@[i as int]);
        let x = a[i];
        let y = b[i];
        if x < y {
            return true;
        }
        if x != y {
            assert((x as int) != (y as int));
            return false;
        }
        assert(a@.skip(i as int).drop_first() =~= a@.skip(i + 1));
        assert(b@.skip(i as int).drop_first() =~= b@.skip(i + 1));
        i = i + 1;
    }
    i == a.len() && i < b.len()
}

/// Whether prototype `p`'s line sorts before prototype `q`'s.
fn key_less(p: u32, q: u32) -> (r: bool)
    ensures
        r == key_lt(p, q),
{
    let mut a = dec_vec(p as u64);
    a.push('=');
    let mut b = dec_vec(q as u64);
    b.push('=');
    lex_less(&a, &b)
}


// ---- the file -----------------------------------------------------------------------

/// The number a trimmed field writes, when it is a `u32`.
pub open spec fn field(fields: Seq<Seq<char>>, i: int) -> Option<nat> {
    parse_num(trim(fields[i]), 10, u32::MAX as nat)
}

/// The choice a line of the file states: its first three `=`-separated
/// fields, trimmed, read as `u32`, with a prototype and a skin other than 0.
/// Fields after the third are ignored.
pub open spec fn line_choice(line: Seq<char>) -> Option<Choice> {
    let f = split(line, Sep::Char('='));
    if f.len() >= 3 && field(f, 0) is Some && field(f, 1) is Some && field(f, 2) is Some && field(
        f,
        0,
    )->0 != 0 && field(f, 1)->0 != 0 {
        Some((field(f, 0)->0 as u32, field(f, 1)->0 as u32, field(f, 2)->0 as u32))
    } else {
        None
    }
}

/// The choices of a list of lines, a later line replacing an earlier one for
/// the same prototype.
pub open spec fn lines_choices(lines: Seq<Seq<char>>) -> Map<u32, (u32, u32)>
    decreases lines.len(),
{
    if lines.len() == 0 {
        Map::empty()
    } else {
        let m = lines_choices(lines.drop_last());
        match line_choice(lines.last()) {
            Some(c) => m.insert(c.0, (c.1, c.2)),
            None => m,
        }
    }
}

/// The choices a file holds. Its lines are its `\n`-separated pieces; a `\r`
/// before a `\n` ends up in the last field and is trimmed there, and an empty
/// last piece states nothing, so this reads as `str::lines` does.
pub open spec fn file_choices(text: Seq<char>) -> Map<u32, (u32, u32)> {
    lines_choices(split(text, Sep::Char('\n')))
}

/// A choice's line: `prototype=skin=output`.
pub open spec fn line_text(c: Choice) -> Seq<char> {
    dec(c.0 as nat) + seq!['='] + dec(c.1 as nat) + seq!['='] + dec(c.2 as nat)
}

/// Each row's line, each followed by `\n`.
pub open spec fn rows_text(rows: Seq<Choice>) -> Seq<char>
    decreases rows.len(),
{
    if rows.len() == 0 {
        seq![]
    } else {
        rows_text(rows.drop_last()) + line_text(rows.last()) + seq!['\n']
    }
}

/// The file written for the rows: the lines joined by `\n`, then a final
/// `\n`.
pub open spec fn file_text(rows: Seq<Choice>) -> Seq<char> {
    if rows.len() == 0 {
        seq!['\n']
    } else {
        rows_text(rows)
    }
}

/// The choice stated by the line `v[lo..hi]`.
fn parse_line(v: &Vec<char>, lo: usize, hi: usize) -> (r: Option<Choice>)
    requires
        lo <= hi <= v.len(),
    ensures
        r == line_choice(v@.subrange(lo as int, hi as int)),
{
    let ghost line = v@.subrange(lo as int, hi as int);
    let fields = split_bounds(v, lo, hi, Sep::Char('='));
    let ghost f = split(line, Sep::Char('='));
    if fields.len() < 3 {
        return None;
    }
    let mut nums: Vec<u32> = Vec::new();
    let mut k: usize = 0;
    while k < 3
        invariant
            k <= 3,
            fields.len() >= 3,
            fields.len() == f.len(),
            f == split(v@.subrange(lo as int, hi as int), Sep::Char('=')),
            forall|j: int|
                0 <= j < fields.len() ==> lo <= (#[trigger] fields[j]).0 <= fields[j].1 <= hi
                    && v@.subrange(fields[j].0 as int, fields[j].1 as int) == f[j],
            hi <= v.len(),
            nums.len() == k,
            forall|j: int| 0 <= j < k ==> field(f, j) == Some(#[trigger] nums[j] as nat),
        decreases 3 - k,
    {
        let (a, b) = fields[k];
        let (ta, tb) = trim_bounds(v, a, b);
        match parse_num_at(v, ta, tb, 10, 0xffff_ffff) {
            Some(x) => {
                nums.push(x as u32);
            },
            None => {
                return None;
            },
        }
        k = k + 1;
    }
    if nums[0] == 0 || nums[1] == 0 {
        return None;
    }
    Some((nums[0], nums[1], nums[2]))
}

impl Store {
    /// The choices a file holds, or none when it could not be read.
    fn parse(text: Option<&str>) -> (st: Store)
        ensures
            st.wf(),
            st@ == match text {
                Some(t) => file_choices(t@),
                None => Map::empty(),
            },
    {
        let mut st = Store { rows: Vec::new() };
        assert(st@ =~= Map::empty());
        let t = match text {
            Some(t) => t,
            None => {
                return st;
            },
        };
        let v = crate::text::chars_of(t);
        let lines = split_bounds(&v, 0, v.len(), Sep::Char('\n'));
        let ghost ls = split(v@.subrange(0, v.len() as int), Sep::Char('\n'));
        assert(v@.subrange(0, v.len() as int) =~= t@);
        let mut i: usize = 0;
        assert(ls.take(0) =~= Seq::<Seq<char>>::empty());
        while i < lines.len()
            invariant
                i <= lines.len(),
                lines.len() == ls.len(),
                ls == split(t@, Sep::Char('\n')),
                forall|j: int|
                    0 <= j < lines.len() ==> 0 <= (#[trigger] lines[j]).0 <= lines[j].1 <= v.len()
                        && v@.subrange(lines[j].0 as int, lines[j].1 as int) == ls[j],
                st.wf(),
                st@ == lines_choices(ls.take(i as int)),
            decreases lines.len() - i,
        {
            let (a, b) = lines[i];
            let c = parse_line(&v, a, b);
            assert(ls.take(i + 1).drop_last() =~= ls.take(i as int));
            assert(ls.take(i + 1).last() == ls[i as int]);
            match c {
                Some(c) => {
                    st.insert(c.0, c.1, c.2);
                },
                None => {},
            }
            i = i + 1;
        }
        assert(ls.take(i as int) =~= ls);
        st
    }

    /// The file text for the current rows.
    pub fn text(&self) -> (r: String)
        ensures
            r@ == file_text(self.rows()),
    {
        let mut out = String::new();
        if self.rows.len() == 0 {
            push_char(&mut out, '\n');
            assert(out@ =~= seq!['\n']);
            return out;
        }
        let mut i: usize = 0;
        assert(self.rows@.take(0) =~= Seq::<Choice>::empty());
        while i < self.rows.len()
            invariant
                i <= self.rows.len(),
                out@ == rows_text(self.rows@.take(i as int)),
            decreases self.rows.len() - i,
        {
            let (p, s, o) = self.rows[i];
            let ghost before = out@;
            push_dec(&mut out, p as u64);
            push_char(&mut out, '=');
            push_dec(&mut out, s as u64);
            push_char(&mut out, '=');
            push_dec(&mut out, o as u64);
            push_char(&mut out, '\n');
            assert(self.rows@.take(i + 1).drop_last() =~= self.rows@.take(i as int));
            assert(out@ =~= rows_text(self.rows@.take(i + 1)));
            i = i + 1;
        }
        assert(self.rows@.take(i as int) =~= self.rows@);
        out
    }
}

/// The keys of the rows.
pub open spec fn keys(rows: Seq<Choice>) -> Seq<u32> {
    rows.map_values(|c: Choice| c.0)
}

proof fn lemma_dom(rows: Seq<Choice>)
    requires
        unique_keys(rows),
    ensures
        to_map(rows).dom() == keys(rows).to_set(),
        to_map(rows).dom().len() == rows.len(),
        to_map(rows).dom().finite(),
{
    assert(to_map(rows).dom() =~= keys(rows).to_set()) by {
        assert forall|p: u32| #[trigger] to_map(rows).dom().contains(p) == keys(rows).to_set().contains(p) by {
            if to_map(rows).dom().contains(p) {
                let k = choose|k: int| 0 <= k < rows.len() && rows[k].0 == p;
                assert(keys(rows)[k] == p);
            }
            if keys(rows).to_set().contains(p) {
                let k = choose|k: int| 0 <= k < keys(rows).len() && keys(rows)[k] == p;
                assert(rows[k].0 == p);
            }
        }
    }
    assert(keys(rows).no_duplicates()) by {
        assert forall|i: int, j: int|
            0 <= i < keys(rows).len() && 0 <= j < keys(rows).len() && i != j implies keys(rows)[i]
            != keys(rows)[j] by {
            assert(rows[i].0 != rows[j].0);
        }
    }
    keys(rows).unique_seq_to_set();
    vstd::seq_lib::seq_to_set_is_finite(keys(rows));
}

/// The choices a file holds; no choices when the file could not be read.
pub fn init(text: Option<&str>) -> (st: Store)
    ensures
        st.wf(),
        st@ == match text {
            Some(t) => file_choices(t@),
            None => Map::empty(),
        },
{
    Store::parse(text)
}

/// Every (prototype, skin) choice, in the file's order.
pub fn all(st: &Store) -> (r: Vec<(u32, u32)>)
    requires
        st.wf(),
    ensures
        r@ == st.rows().map_values(|c: Choice| (c.0, c.1)),
        r@.no_duplicates(),
        r@.len() == st@.dom().len(),
        forall|p: u32, s: u32|
            #[trigger] r@.contains((p, s)) <==> st@.contains_key(p) && st@[p].0 == s,
{
    let mut r: Vec<(u32, u32)> = Vec::new();
    let mut i: usize = 0;
    while i < st.rows.len()
        invariant
            i <= st.rows.len(),
            r@ == st.rows@.take(i as int).map_values(|c: Choice| (c.0, c.1)),
        decreases st.rows.len() - i,
    {
        let (p, s, _) = st.rows[i];
        r.push((p, s));
        assert(st.rows@.take(i + 1).map_values(|c: Choice| (c.0, c.1)) =~= st.rows@.take(
            i as int,
        ).map_values(|c: Choice| (c.0, c.1)).push((p, s)));
        i = i + 1;
    }
    assert(st.rows@.take(i as int) =~= st.rows@);
    proof {
        let rows = st.rows@;
        lemma_sorted_unique(rows);
        lemma_dom(rows);
        assert(r@.no_duplicates()) by {
            assert forall|i: int, j: int| 0 <= i < r@.len() && 0 <= j < r@.len() && i != j implies r@[i]
                != r@[j] by {
                assert(rows[i].0 != rows[j].0);
            }
        }
        assert forall|p: u32, s: u32|
            #[trigger] r@.contains((p, s)) <==> st@.contains_key(p) && st@[p].0 == s by {
            if r@.contains((p, s)) {
                let k = choose|k: int| 0 <= k < r@.len() && r@[k] == (p, s);
                lemma_to_map_at(rows, k);
            }
            if st@.contains_key(p) && st@[p].0 == s {
                let k = choose|k: int| 0 <= k < rows.len() && rows[k].0 == p;
                lemma_to_map_at(rows, k);
                assert(r@[k] == (p, s));
            }
        }
    }
    r
}

/// The number of prototypes with a choice.
pub fn len(st: &Store) -> (n: usize)
    requires
        st.wf(),
    ensures
        n == st@.dom().len(),
        n == st.rows().len(),
{
    proof {
        lemma_sorted_unique(st.rows@);
        lemma_dom(st.rows@);
    }
    st.rows.len()
}

/// The (skin item, output item) chosen for a prototype.
pub fn choice_for(st: &Store, prototype: u32) -> (r: Option<(u32, u32)>)
    requires
        st.wf(),
    ensures
        r == if st@.contains_key(prototype) {
            Some(st@[prototype])
        } else {
            None
        },
{
    proof {
        lemma_sorted_unique(st.rows@);
    }
    let mut i: usize = 0;
    while i < st.rows.len()
        invariant
            i <= st.rows.len(),
            unique_keys(st.rows@),
            forall|j: int| 0 <= j < i ==> (#[trigger] st.rows@[j]).0 != prototype,
        decreases st.rows.len() - i,
    {
        let (p, s, o) = st.rows[i];
        if p == prototype {
            proof {
                lemma_to_map_at(st.rows@, i as int);
            }
            return Some((s, o));
        }
        i = i + 1;
    }
    None
}

/// The output item a prototype's definition lookup resolves to, when the
/// choice is not the default look: an output other than 0 and other than the
/// prototype itself.
pub fn output_for(st: &Store, prototype: u32) -> (r: Option<u32>)
    requires
        st.wf(),
    ensures
        r == if st@.contains_key(prototype) && st@[prototype].1 != 0 && st@[prototype].1
            != prototype {
            Some(st@[prototype].1)
        } else {
            None
        },
{
    match choice_for(st, prototype) {
        Some((_, output)) => {
            if output != 0 && output != prototype {
                Some(output)
            } else {
                None
            }
        },
        None => None,
    }
}

/// Records a choice and gives the file text to write for it.
pub fn set(st: &mut Store, prototype: u32, skin: u32, output: u32) -> (text: String)
    requires
        old(st).wf(),
    ensures
        final(st).wf(),
        final(st)@ == old(st)@.insert(prototype, (skin, output)),
        to_map(final(st).rows()) == final(st)@,
        text@ == file_text(final(st).rows()),
{
    st.insert(prototype, skin, output);
    st.text()
}

// ---- laws ---------------------------------------------------------------------------

proof fn lemma_dec_no_separator(n: nat, c: char)
    requires
        !(48 <= c as u32 <= 57),
    ensures
        forall|i: int| 0 <= i < dec(n).len() ==> #[trigger] dec(n)[i] != c,
{
    lemma_dec_digits(n);
}

proof fn lemma_line_fields(c: Choice)
    ensures
        split(line_text(c), Sep::Char('=')) == seq![dec(c.0 as nat), dec(c.1 as nat), dec(c.2 as nat)],
        forall|i: int| 0 <= i < line_text(c).len() ==> #[trigger] line_text(c)[i] != '\n',
{
    let (dp, ds, d_o) = (dec(c.0 as nat), dec(c.1 as nat), dec(c.2 as nat));
    let sep = Sep::Char('=');
    lemma_dec_no_separator(c.0 as nat, '=');
    lemma_dec_no_separator(c.1 as nat, '=');
    lemma_dec_no_separator(c.2 as nat, '=');
    lemma_dec_no_separator(c.0 as nat, '\n');
    lemma_dec_no_separator(c.1 as nat, '\n');
    lemma_dec_no_separator(c.2 as nat, '\n');
    lemma_split_whole(dp, sep);
    lemma_split_whole(ds, sep);
    lemma_split_whole(d_o, sep);
    lemma_split_concat(ds, '=', d_o, sep);
    assert(line_text(c) =~= dp.push('=') + (ds.push('=') + d_o));
    lemma_split_concat(dp, '=', ds.push('=') + d_o, sep);
    assert(split(line_text(c), sep) =~= seq![dp, ds, d_o]);
    assert forall|i: int| 0 <= i < line_text(c).len() implies #[trigger] line_text(c)[i] != '\n' by {
        if i < dp.len() {
            assert(line_text(c)[i] == dp[i]);
        } else if i == dp.len() {
        } else if i < dp.len() + 1 + ds.len() {
            assert(line_text(c)[i] == ds[i - dp.len() - 1]);
        } else if i == dp.len() + 1 + ds.len() {
        } else {
            assert(line_text(c)[i] == d_o[i - dp.len() - 2 - ds.len()]);
        }
    }
}

proof fn lemma_line_choice(c: Choice)
    requires
        c.0 != 0,
        c.1 != 0,
    ensures
        line_choice(line_text(c)) == Some(c),
{
    lemma_line_fields(c);
    lemma_parse_dec(c.0 as nat, u32::MAX as nat);
    lemma_parse_dec(c.1 as nat, u32::MAX as nat);
    lemma_parse_dec(c.2 as nat, u32::MAX as nat);
}

proof fn lemma_split_rows_text(rows: Seq<Choice>)
    ensures
        split(rows_text(rows), Sep::Char('\n')) == rows.map_values(|c: Choice| line_text(c)).push(
            Seq::empty(),
        ),
    decreases rows.len(),
{
    let sep = Sep::Char('\n');
    let lines = rows.map_values(|c: Choice| line_text(c));
    if rows.len() == 0 {
        assert(split(rows_text(rows), sep) =~= lines.push(Seq::empty()));
    } else {
        let r = rows.drop_last();
        let t = rows_text(r);
        let l = line_text(rows.last());
        lemma_line_fields(rows.last());
        lemma_split_whole(l, sep);
        let whole = rows_text(rows);
        assert(whole.drop_last() =~= t + l);
        assert(whole.last() == '\n');
        if r.len() == 0 {
            assert(t + l =~= l);
        } else {
            lemma_split_rows_text(r);
            let t1 = rows_text(r.drop_last()) + line_text(r.last());
            assert(t =~= t1.push('\n'));
            assert(t.drop_last() =~= t1);
            assert(t.last() == '\n');
            assert(split(t, sep) == split(t1, sep).push(Seq::empty()));
            assert(split(t1, sep) =~= split(t, sep).drop_last());
            lemma_split_concat(t1, '\n', l, sep);
            assert(t1.push('\n') + l =~= t + l);
            assert(split(t1, sep) =~= r.map_values(|c: Choice| line_text(c)));
        }
        assert(split(t + l, sep) =~= lines);
        assert(split(whole, sep) =~= lines.push(Seq::empty()));
    }
}

proof fn lemma_to_map_push(rows: Seq<Choice>, c: Choice)
    requires
        unique_keys(rows.push(c)),
    ensures
        to_map(rows.push(c)) == to_map(rows).insert(c.0, (c.1, c.2)),
{
    let all = rows.push(c);
    assert(unique_keys(rows)) by {
        assert forall|i: int, j: int|
            0 <= i < rows.len() && 0 <= j < rows.len() && i != j implies #[trigger] rows[i].0
            != #[trigger] rows[j].0 by {
            assert(all[i] == rows[i] && all[j] == rows[j]);
        }
    }
    assert(to_map(all) =~= to_map(rows).insert(c.0, (c.1, c.2))) by {
        assert forall|p: u32| #[trigger]
            to_map(all).contains_key(p) == to_map(rows).insert(c.0, (c.1, c.2)).contains_key(p) by {
            if to_map(rows).contains_key(p) {
                let k = choose|k: int| 0 <= k < rows.len() && rows[k].0 == p;
                assert(all[k].0 == p);
            }
            if p == c.0 {
                assert(all[rows.len() as int].0 == p);
            }
            if to_map(all).contains_key(p) && p != c.0 {
                let k = choose|k: int| 0 <= k < all.len() && all[k].0 == p;
                assert(rows[k].0 == p);
            }
        }
        assert forall|p: u32| #[trigger] to_map(all).contains_key(p) implies to_map(all)[p]
            == to_map(rows).insert(c.0, (c.1, c.2))[p] by {
            let k = choose|k: int| 0 <= k < all.len() && all[k].0 == p;
            lemma_to_map_at(all, k);
            if k < rows.len() {
                assert(all[k] == rows[k]);
                assert(all[k].0 != all[rows.len() as int].0);
                lemma_to_map_at(rows, k);
            }
        }
    }
}

proof fn lemma_lines_choices_rows(rows: Seq<Choice>)
    requires
        unique_keys(rows),
        forall|i: int| 0 <= i < rows.len() ==> (#[trigger] rows[i]).0 != 0 && rows[i].1 != 0,
    ensures
        lines_choices(rows.map_values(|c: Choice| line_text(c))) == to_map(rows),
    decreases rows.len(),
{
    let lines = rows.map_values(|c: Choice| line_text(c));
    if rows.len() == 0 {
        assert(to_map(rows) =~= Map::empty());
    } else {
        let r = rows.drop_last();
        assert(unique_keys(r)) by {
            assert forall|i: int, j: int|
                0 <= i < r.len() && 0 <= j < r.len() && i != j implies #[trigger] r[i].0
                != #[trigger] r[j].0 by {
                assert(rows[i] == r[i] && rows[j] == r[j]);
            }
        }
        assert forall|i: int| 0 <= i < r.len() implies (#[trigger] r[i]).0 != 0 && r[i].1 != 0 by {
            assert(r[i] == rows[i]);
        }
        lemma_lines_choices_rows(r);
        assert(lines.drop_last() =~= r.map_values(|c: Choice| line_text(c)));
        lemma_line_choice(rows.last());
        assert(r.push(rows.last()) =~= rows);
        lemma_to_map_push(r, rows.last());
    }
}

/// A choice reads back as it was set, and setting it leaves every other
/// prototype's choice as it was.
pub proof fn law_choice_after_set(before: Store, after: Store, prototype: u32, skin: u32, output: u32, other: u32)
    requires
        after@ == before@.insert(prototype, (skin, output)),
    ensures
        after@.contains_key(prototype),
        after@[prototype] == (skin, output),
        other != prototype ==> after@.contains_key(other) == before@.contains_key(other),
        other != prototype && before@.contains_key(other) ==> after@[other] == before@[other],
{
}

/// What is written is what is read back: the file written for a store holds
/// exactly the store's choices, for every store whose prototypes and skins
/// are other than 0 (the only choices a line can state).
pub proof fn law_file_reads_back(st: Store)
    requires
        st.wf(),
        forall|p: u32| #[trigger] st@.contains_key(p) ==> p != 0 && st@[p].0 != 0,
    ensures
        file_choices(file_text(st.rows())) == st@,
{
    let rows = st.rows();
    lemma_sorted_unique(rows);
    assert forall|i: int| 0 <= i < rows.len() implies (#[trigger] rows[i]).0 != 0 && rows[i].1
        != 0 by {
        lemma_to_map_at(rows, i);
        assert(st@.contains_key(rows[i].0));
    }
    let lines = rows.map_values(|c: Choice| line_text(c));
    if rows.len() == 0 {
        let t = file_text(rows);
        assert(t.len() == 1);
        assert(t.last() == '\n');
        assert(t.drop_last() =~= Seq::<char>::empty());
        assert(split(Seq::<char>::empty(), Sep::Char('\n')) =~= seq![Seq::<char>::empty()]);
        assert(split(t, Sep::Char('\n')) == split(t.drop_last(), Sep::Char('\n')).push(Seq::empty()));
        assert(split(t, Sep::Char('\n')) =~= seq![Seq::<char>::empty(), Seq::<char>::empty()]);
        assert(split(Seq::<char>::empty(), Sep::Char('=')).len() == 1);
        let two = seq![Seq::<char>::empty(), Seq::<char>::empty()];
        assert(two.drop_last() =~= seq![Seq::<char>::empty()]);
        assert(two.drop_last().drop_last() =~= Seq::<Seq<char>>::empty());
        assert(to_map(rows) =~= Map::empty());
        assert(line_choice(Seq::<char>::empty()) is None);
        assert(two.last() == Seq::<char>::empty());
        assert(two.drop_last().last() == Seq::<char>::empty());
        assert(lines_choices(two.drop_last().drop_last()) == Map::<u32, (u32, u32)>::empty());
        assert(lines_choices(two.drop_last()) == Map::<u32, (u32, u32)>::empty());
        assert(lines_choices(two) == Map::<u32, (u32, u32)>::empty());
    } else {
        lemma_split_rows_text(rows);
        lemma_lines_choices_rows(rows);
        assert(split(Seq::<char>::empty(), Sep::Char('=')).len() == 1);
        assert(line_choice(Seq::<char>::empty()) is None);
        assert(lines.push(Seq::empty()).drop_last() =~= lines);
        assert(lines_choices(lines.push(Seq::empty())) == lines_choices(lines));
    }
    assert(st@ == to_map(rows));
}

/// The file's lines are in strictly increasing string order, as sorting the
/// lines orders them.
pub proof fn law_file_lines_sorted(st: Store, i: int, j: int)
    requires
        st.wf(),
        0 <= i < j < st.rows().len(),
    ensures
        lex_lt(line_text(st.rows()[i]), line_text(st.rows()[j])),
{
    let a = st.rows()[i];
    let b = st.rows()[j];
    assert(key_lt(a.0, b.0));
    lemma_key_prefix_order(a, b);
}

proof fn lemma_lex_extend(a: Seq<char>, b: Seq<char>, x: Seq<char>, y: Seq<char>)
    requires
        lex_lt(a, b),
        a.len() > 0,
        b.len() > 0,
        exists|k: int| 0 <= k < a.len() && k < b.len() && a[k] != b[k],
    ensures
        lex_lt(a + x, b + y),
    decreases a.len(),
{
    assert((a + x)[0] == a[0]);
    assert((b + y)[0] == b[0]);
    if a[0] == b[0] {
        let k = choose|k: int| 0 <= k < a.len() && k < b.len() && a[k] != b[k];
        assert(k > 0);
        assert(a.drop_first()[k - 1] == a[k]);
        assert(b.drop_first()[k - 1] == b[k]);
        assert((a + x).drop_first() =~= a.drop_first() + x);
        assert((b + y).drop_first() =~= b.drop_first() + y);
        lemma_lex_extend(a.drop_first(), b.drop_first(), x, y);
    }
}

proof fn lemma_key_prefix_order(a: Choice, b: Choice)
    requires
        key_lt(a.0, b.0),
    ensures
        lex_lt(line_text(a), line_text(b)),
{
    let ka = key_text(a.0);
    let kb = key_text(b.0);
    lemma_dec_digits(a.0 as nat);
    lemma_dec_digits(b.0 as nat);
    let da = dec(a.0 as nat);
    let db = dec(b.0 as nat);
    // the two keys differ at a position inside both
    assert(exists|k: int| 0 <= k < ka.len() && k < kb.len() && ka[k] != kb[k]) by {
        if da.len() == db.len() {
            if ka == kb {
                lemma_lex_irreflexive(ka);
            }
            assert(ka.len() == kb.len());
            assert(!(ka =~= kb));
        } else if da.len() < db.len() {
            let k = da.len() as int;
            assert(ka[k] == '=');
            assert(kb[k] == db[k]);
        } else {
            let k = db.len() as int;
            assert(kb[k] == '=');
            assert(ka[k] == da[k]);
        }
    }
    let xa = dec(a.1 as nat) + seq!['='] + dec(a.2 as nat);
    let xb = dec(b.1 as nat) + seq!['='] + dec(b.2 as nat);
    lemma_lex_extend(ka, kb, xa, xb);
    assert(ka + xa =~= line_text(a));
    assert(kb + xb =~= line_text(b));
}

} // verus!
