//! The command port's language: one command per line, replies terminated by a
//! line holding `.`.
//!
//! Commands:
//! - `ping`
//! - `read <hex addr> <len>` / `u32 <hex addr>` / `u64 <hex addr>`
//! - `jobs`, `run <job> [args]` - jobs run on the game's main thread and
//!   the reply is their result
//! - `tail` - stream every log line from now on, prefixed `log `
use vstd::prelude::*;

use crate::scan::{
    all_digits, digit_of, parse_num, parse_num_at, split, split_bounds, trim, trim_bounds, unsigned, value, Sep,
};
use crate::text::{chars_of, digit_char, hex, hex2, push_char, push_hex, push_hex2, push_str};

verus! {

// ---- words --------------------------------------------------------------------------

/// The non-empty pieces, in order.
pub open spec fn nonempty(ps: Seq<Seq<char>>) -> Seq<Seq<char>>
    decreases ps.len(),
{
    if ps.len() == 0 {
        seq![]
    } else if ps.last().len() > 0 {
        nonempty(ps.drop_last()).push(ps.last())
    } else {
        nonempty(ps.drop_last())
    }
}

/// The white-space separated words of a line, as `str::split_whitespace`
/// yields them.
pub open spec fn words(s: Seq<char>) -> Seq<Seq<char>> {
    nonempty(split(s, Sep::Space))
}

/// The text of `v[lo..hi]`.
fn text_of(v: &Vec<char>, lo: usize, hi: usize) -> (r: String)
    requires
        lo <= hi <= v.len(),
    ensures
        r@ == v@.subrange(lo as int, hi as int),
{
    let mut out = String::new();
    let mut i = lo;
    while i < hi
        invariant
            lo <= i <= hi <= v.len(),
            out@ == v@.subrange(lo as int, i as int),
        decreases hi - i,
    {
        push_char(&mut out, v[i]);
        assert(v@.subrange(lo as int, i + 1) =~= v@.subrange(lo as int, i as int).push(v@[i as int]));
        i = i + 1;
    }
    out
}

/// The views of a list of strings.
pub open spec fn texts(v: Seq<String>) -> Seq<Seq<char>> {
    v.map_values(|s: String| s@)
}

/// The words of a line.
pub fn split_words(line: &str) -> (r: Vec<String>)
    ensures
        texts(r@) == words(line@),
{
    let v = chars_of(line);
    let bounds = split_bounds(&v, 0, v.len(), Sep::Space);
    let ghost ps = split(v@.subrange(0, v.len() as int), Sep::Space);
    assert(v@.subrange(0, v.len() as int) =~= line@);
    let mut r: Vec<String> = Vec::new();
    let mut k: usize = 0;
    assert(ps.take(0) =~= Seq::<Seq<char>>::empty());
    while k < bounds.len()
        invariant
            k <= bounds.len(),
            bounds.len() == ps.len(),
            ps == split(line@, Sep::Space),
            forall|j: int|
                0 <= j < bounds.len() ==> 0 <= (#[trigger] bounds[j]).0 <= bounds[j].1 <= v.len()
                    && v@.subrange(bounds[j].0 as int, bounds[j].1 as int) == ps[j],
            texts(r@) == nonempty(ps.take(k as int)),
        decreases bounds.len() - k,
    {
        let (a, b) = bounds[k];
        assert(ps.take(k + 1).drop_last() =~= ps.take(k as int));
        assert(ps.take(k + 1).last() == ps[k as int]);
        if a < b {
            let w = text_of(&v, a, b);
            r.push(w);
            assert(texts(r@) =~= nonempty(ps.take(k as int)).push(ps[k as int]));
        } else {
            assert(ps[k as int].len() == 0);
        }
        k = k + 1;
    }
    assert(ps.take(k as int) =~= ps);
    r
}

// ---- jobs ---------------------------------------------------------------------------

/// Named jobs, in registration order.
pub struct Jobs<F> {
    names: Vec<String>,
    funcs: Vec<F>,
}

impl<F> Jobs<F> {
    /// The job names, in registration order.
    pub closed spec fn names(&self) -> Seq<Seq<char>> {
        texts(self.names@)
    }

    /// The jobs, in registration order.
    pub closed spec fn funcs(&self) -> Seq<F> {
        self.funcs@
    }

    pub closed spec fn wf(&self) -> bool {
        self.names@.len() == self.funcs@.len()
    }

    /// No jobs.
    pub fn new() -> (r: Jobs<F>)
        ensures
            r.wf(),
            r.names() == Seq::<Seq<char>>::empty(),
            r.funcs() == Seq::<F>::empty(),
    {
        let r = Jobs { names: Vec::new(), funcs: Vec::new() };
        assert(r.names() =~= Seq::<Seq<char>>::empty());
        assert(r.funcs() =~= Seq::<F>::empty());
        r
    }

    /// The job registered at `i`.
    pub fn job(&self, i: usize) -> (f: &F)
        requires
            self.wf(),
            i < self.names().len(),
        ensures
            *f == self.funcs()[i as int],
    {
        &self.funcs[i]
    }
}

/// Adds a named job after the ones registered before.
pub fn register<F>(jobs: &mut Jobs<F>, name: &str, f: F)
    requires
        old(jobs).wf(),
    ensures
        final(jobs).wf(),
        final(jobs).names() == old(jobs).names().push(name@),
        final(jobs).funcs() == old(jobs).funcs().push(f),
{
    let ghost before = jobs.names@;
    jobs.names.push(name.to_owned());
    jobs.funcs.push(f);
    assert(texts(jobs.names@) =~= texts(before).push(name@));
}

fn find_job<F>(jobs: &Jobs<F>, name: &String) -> (r: Option<usize>)
    requires
        jobs.wf(),
    ensures
        match r {
            Some(i) => i < jobs.names().len() && jobs.names()[i as int] == name@ && forall|k: int|
                0 <= k < i ==> jobs.names()[k] != name@,
            None => forall|k: int| 0 <= k < jobs.names().len() ==> jobs.names()[k] != name@,
        },
{
    let mut i: usize = 0;
    while i < jobs.names.len()
        invariant
            i <= jobs.names.len(),
            forall|k: int| 0 <= k < i ==> jobs.names()[k] != name@,
        decreases jobs.names.len() - i,
    {
        if jobs.names[i] == *name {
            return Some(i);
        }
        i = i + 1;
    }
    None
}

/// The names joined by single spaces.
pub open spec fn joined(names: Seq<Seq<char>>) -> Seq<char>
    decreases names.len(),
{
    if names.len() == 0 {
        seq![]
    } else if names.len() == 1 {
        names[0]
    } else {
        joined(names.drop_last()) + seq![' '] + names.last()
    }
}

/// The reply to `jobs`: the names, space separated.
pub fn job_names<F>(jobs: &Jobs<F>) -> (r: String)
    requires
        jobs.wf(),
    ensures
        r@ == joined(jobs.names()),
{
    let mut out = String::new();
    let mut i: usize = 0;
    assert(jobs.names().take(0) =~= Seq::<Seq<char>>::empty());
    while i < jobs.names.len()
        invariant
            i <= jobs.names.len(),
            out@ == joined(jobs.names().take(i as int)),
        decreases jobs.names.len() - i,
    {
        assert(jobs.names().take(i + 1).drop_last() =~= jobs.names().take(i as int));
        if i > 0 {
            push_char(&mut out, ' ');
        }
        push_str(&mut out, jobs.names[i].as_str());
        assert(out@ =~= joined(jobs.names().take(i + 1)));
        i = i + 1;
    }
    assert(jobs.names().take(i as int) =~= jobs.names());
    out
}

// ---- commands -----------------------------------------------------------------------

/// What a memory read replies with.
#[derive(Clone, Copy, PartialEq, Eq, Structural)]
pub enum ReadKind {
    /// `read`: every byte as two lower-case hexadecimal digits.
    Bytes,
    /// `u32`: the first four bytes as a little-endian number, `0x` and hex.
    U32,
    /// `u64`: the first eight bytes likewise.
    U64,
}

/// What a command line asks of the port.
pub enum Action {
    /// Reply with this text.
    Reply(String),
    /// Read `len` bytes at `addr` (answering `error: unreadable` when they
    /// are not all readable), then reply with `read_reply`.
    Read { addr: usize, len: usize, kind: ReadKind },
    /// Run the job registered at `job` on the main thread with `args`, and
    /// reply with its result.
    Run { job: usize, args: Vec<String> },
}

/// `s` with every leading `0x` removed, as `str::trim_start_matches("0x")`.
pub open spec fn strip_0x(s: Seq<char>) -> Seq<char>
    decreases s.len(),
{
    if s.len() >= 2 && s[0] == '0' && s[1] == 'x' {
        strip_0x(s.skip(2))
    } else {
        s
    }
}

/// The address a word writes: hexadecimal after any `0x` prefixes.
pub open spec fn address(w: Seq<char>) -> Option<nat> {
    parse_num(strip_0x(w), 16, usize::MAX as nat)
}

/// The largest read the port serves.
pub const MAX_READ: usize = 65536;

proof fn lemma_hex_digits(n: nat)
    ensures
        hex(n).len() > 0,
        all_digits(hex(n), 16),
        value(hex(n), 16) == n,
        forall|i: int| 0 <= i < hex(n).len() ==> #[trigger] hex(n)[i] != 'x' && hex(n)[i] != '+',
    decreases n,
{
    let d = n % 16;
    assert(d < 10 ==> ((48 + d) as char) as u32 == 48 + d);
    assert(d >= 10 ==> ((87 + d) as char) as u32 == 87 + d);
    assert(digit_of(digit_char(d), 16) == Some(d));
    assert(digit_char(d) != 'x' && digit_char(d) != '+');
    if n >= 16 {
        lemma_hex_digits(n / 16);
        let h = hex(n / 16);
        assert(hex(n) == h.push(digit_char(d)));
        assert(hex(n).drop_last() =~= h);
        assert(n == (n / 16) * 16 + n % 16) by (nonlinear_arith);
        assert(hex(n).last() == digit_char(d));
        assert(value(hex(n), 16) == value(h, 16) * 16 + d);
        assert forall|i: int| 0 <= i < hex(n).len() implies (#[trigger] digit_of(hex(n)[i], 16))
            is Some by {
            if i < h.len() {
                assert(hex(n)[i] == h[i]);
            }
        }
        assert forall|i: int| 0 <= i < hex(n).len() implies #[trigger] hex(n)[i] != 'x' && hex(
            n,
        )[i] != '+' by {
            if i < h.len() {
                assert(hex(n)[i] == h[i]);
            }
        }
    } else {
        assert(hex(n) == seq![digit_char(d)]);
        assert(hex(n).drop_last() =~= Seq::<char>::empty());
        assert(hex(n).last() == digit_char(d));
        assert(value(hex(n).drop_last(), 16) == 0);
        assert(value(hex(n), 16) == d);
    }
}

/// Every address the port can be asked for reads back: the hexadecimal
/// digits of any `usize`, with or without one or more `0x` before them, are
/// an address word for that very number, however many bits it needs.
pub proof fn law_address_reads_hex(n: usize)
    ensures
        address(seq!['0', 'x'] + hex(n as nat)) == Some(n as nat),
        address(seq!['0', 'x', '0', 'x'] + hex(n as nat)) == Some(n as nat),
        address(hex(n as nat)) == Some(n as nat),
{
    lemma_hex_digits(n as nat);
    let h = hex(n as nat);
    let w = seq!['0', 'x'] + h;
    assert(w.skip(2) =~= h);
    if h.len() >= 2 {
        assert(h[1] != 'x');
    }
    assert(strip_0x(h) == h);
    assert(strip_0x(w) == strip_0x(w.skip(2)));
    let w2 = seq!['0', 'x'] + w;
    assert(w2.skip(2) =~= w);
    assert(seq!['0', 'x', '0', 'x'] + h =~= w2);
    assert(strip_0x(w2) == strip_0x(w2.skip(2)));
    assert(unsigned(h) == h);
}

fn address_at(w: &String) -> (r: Option<usize>)
    ensures
        match r {
            Some(x) => address(w@) == Some(x as nat),
            None => address(w@) is None,
        },
{
    let v = chars_of(w.as_str());
    let mut a: usize = 0;
    assert(v@.subrange(0, v.len() as int) =~= w@);
    while v.len() - a >= 2 && v[a] == '0' && v[a + 1] == 'x'
        invariant
            a <= v.len(),
            v@ == w@,
            strip_0x(w@) == strip_0x(v@.subrange(a as int, v.len() as int)),
        decreases v.len() - a,
    {
        assert(v@.subrange(a as int, v.len() as int).skip(2) =~= v@.subrange(a + 2, v.len() as int));
        a = a + 2;
    }
    assert(strip_0x(v@.subrange(a as int, v.len() as int)) == v@.subrange(a as int, v.len() as int));
    match parse_num_at(&v, a, v.len(), 16, usize::MAX as u64) {
        Some(x) => Some(x as usize),
        None => None,
    }
}

fn length_at(w: &String) -> (r: Option<usize>)
    ensures
        match r {
            Some(x) => parse_num(w@, 10, usize::MAX as nat) == Some(x as nat),
            None => parse_num(w@, 10, usize::MAX as nat) is None,
        },
{
    let v = chars_of(w.as_str());
    assert(v@.subrange(0, v.len() as int) =~= w@);
    match parse_num_at(&v, 0, v.len(), 10, usize::MAX as u64) {
        Some(x) => Some(x as usize),
        None => None,
    }
}

fn word_is(w: &String, lit: &str) -> (r: bool)
    ensures
        r == (w@ == lit@),
{
    let s = lit.to_owned();
    *w == s
}

fn reply(text: &str) -> (a: Action)
    ensures
        a matches Action::Reply(s) && s@ == text@,
{
    Action::Reply(text.to_owned())
}

/// What a command line asks of the port, for jobs registered under `names`
/// in order: `ping` answers `pong`; `read`, `u32` and `u64` read at the
/// address their second word writes (hexadecimal after any `0x`), four or
/// eight bytes or the length the third word writes (8 when it writes none),
/// up to `MAX_READ`; `jobs` lists the names; `run` runs the first job of that
/// name with the words after it; anything else is refused.
pub open spec fn handled(names: Seq<Seq<char>>, line: Seq<char>, a: Action) -> bool {
        let w = words(line);
        let len_word = if w.len() > 2 {
            parse_num(w[2], 10, usize::MAX as nat)
        } else {
            None
        };
        if w.len() == 0 {
            a matches Action::Reply(s) && s@ == Seq::<char>::empty()
        } else if w[0] == "ping"@ {
            a matches Action::Reply(s) && s@ == "pong"@
        } else if w[0] == "read"@ || w[0] == "u32"@ || w[0] == "u64"@ {
            if w.len() < 2 || address(w[1]) is None {
                a matches Action::Reply(s) && s@ == "error: address"@
            } else {
                let kind = if w[0] == "u32"@ {
                    ReadKind::U32
                } else if w[0] == "u64"@ {
                    ReadKind::U64
                } else {
                    ReadKind::Bytes
                };
                let len: nat = if kind == ReadKind::U32 {
                    4
                } else if kind == ReadKind::U64 {
                    8
                } else {
                    match len_word {
                        Some(n) => n,
                        None => 8,
                    }
                };
                if len > MAX_READ {
                    a matches Action::Reply(s) && s@ == "error: length"@
                } else {
                    a matches Action::Read { addr, len: l, kind: k } && addr == address(
                        w[1],
                    )->0 && l == len && k == kind
                }
            }
        } else if w[0] == "jobs"@ {
            a matches Action::Reply(s) && s@ == joined(names)
        } else if w[0] == "run"@ {
            if w.len() < 2 {
                a matches Action::Reply(s) && s@ == "error: job name"@
            } else if forall|k: int| 0 <= k < names.len() ==> names[k] != w[1] {
                a matches Action::Reply(s) && s@ == "error: no such job"@
            } else {
                a matches Action::Run { job, args } && job < names.len()
                    && names[job as int] == w[1] && (forall|k: int|
                    0 <= k < job ==> names[k] != w[1]) && texts(args@) == w.skip(2)
            }
        } else {
            a matches Action::Reply(s) && s@ == "error: unknown command"@
        }
}

/// What a command line asks for.
pub fn handle<F>(jobs: &Jobs<F>, line: &str) -> (a: Action)
    requires
        jobs.wf(),
    ensures
        a matches Action::Read { len, .. } ==> len <= MAX_READ,
        handled(jobs.names(), line@, a),
{
    let parts = split_words(line);
    let ghost w = words(line@);
    assert(parts@.len() == w.len());
    if parts.len() == 0 {
        return Action::Reply(String::new());
    }
    assert(parts@[0]@ == w[0]);
    let command = &parts[0];
    if word_is(command, "ping") {
        return reply("pong");
    }
    let is_u32 = word_is(command, "u32");
    let is_u64 = word_is(command, "u64");
    if word_is(command, "read") || is_u32 || is_u64 {
        if parts.len() < 2 {
            return reply("error: address");
        }
        assert(parts@[1]@ == w[1]);
        let addr = match address_at(&parts[1]) {
            Some(x) => x,
            None => {
                return reply("error: address");
            },
        };
        let kind = if is_u32 {
            ReadKind::U32
        } else if is_u64 {
            ReadKind::U64
        } else {
            ReadKind::Bytes
        };
        let len: usize = if is_u32 {
            4
        } else if is_u64 {
            8
        } else if parts.len() > 2 {
            assert(parts@[2]@ == w[2]);
            match length_at(&parts[2]) {
                Some(n) => n,
                None => 8,
            }
        } else {
            8
        };
        if len > MAX_READ {
            return reply("error: length");
        }
        return Action::Read { addr, len, kind };
    }
    if word_is(command, "jobs") {
        return Action::Reply(job_names(jobs));
    }
    if word_is(command, "run") {
        if parts.len() < 2 {
            return reply("error: job name");
        }
        assert(parts@[1]@ == w[1]);
        match find_job(jobs, &parts[1]) {
            None => {
                return reply("error: no such job");
            },
            Some(job) => {
                let mut args: Vec<String> = Vec::new();
                let mut k: usize = 2;
                while k < parts.len()
                    invariant
                        2 <= k <= parts.len(),
                        texts(parts@) == w,
                        texts(args@) == w.subrange(2, k as int),
                    decreases parts.len() - k,
                {
                    assert(texts(parts@)[k as int] == parts@[k as int]@);
                    let ghost before = args@;
                    let c = parts[k].clone();
                    assert(c@ == parts@[k as int]@);
                    args.push(c);
                    assert(args@ == before.push(c));
                    assert(texts(args@) =~= texts(before).push(c@));
                    assert(texts(args@) =~= w.subrange(2, k + 1));
                    k = k + 1;
                }
                assert(w.subrange(2, k as int) =~= w.skip(2));
                return Action::Run { job, args };
            },
        }
    }
    reply("error: unknown command")
}

// ---- replies ------------------------------------------------------------------------

/// The little-endian number that bytes write.
pub open spec fn le_value(s: Seq<u8>) -> nat
    decreases s.len(),
{
    if s.len() == 0 {
        0
    } else {
        s[0] as nat + 256 * le_value(s.drop_first())
    }
}

/// Every byte as two lower-case hexadecimal digits.
pub open spec fn bytes_hex(s: Seq<u8>) -> Seq<char>
    decreases s.len(),
{
    if s.len() == 0 {
        seq![]
    } else {
        bytes_hex(s.drop_last()) + hex2(s.last(), false)
    }
}

/// The reply to a read of `bytes`.
pub open spec fn read_text(kind: ReadKind, bytes: Seq<u8>) -> Seq<char> {
    match kind {
        ReadKind::Bytes => bytes_hex(bytes),
        ReadKind::U32 => seq!['0', 'x'] + hex(le_value(bytes.take(4))),
        ReadKind::U64 => seq!['0', 'x'] + hex(le_value(bytes.take(8))),
    }
}

fn le_of(bytes: &[u8], n: usize) -> (r: u64)
    requires
        n <= 8,
        n <= bytes.len(),
    ensures
        r == le_value(bytes@.take(n as int)),
{
    let mut acc: u64 = 0;
    let mut k = n;
    assert(bytes@.take(n as int).skip(n as int) =~= Seq::<u8>::empty());
    while k > 0
        invariant
            k <= n <= 8,
            n <= bytes.len(),
            acc == le_value(bytes@.take(n as int).skip(k as int)),
            acc < pow256((n - k) as nat),
        decreases k,
    {
        let ghost t = bytes@.take(n as int);
        assert(t.skip(k - 1).drop_first() =~= t.skip(k as int));
        assert(t.skip(k - 1)[0] == bytes@[k - 1]);
        assert(acc * 256 + 255 < pow256((n - k + 1) as nat)) by (nonlinear_arith)
            requires
                acc < pow256((n - k) as nat),
                pow256((n - k + 1) as nat) == 256 * pow256((n - k) as nat),
        ;
        proof {
            lemma_pow256_mono((n - k + 1) as nat, 8);
        }
        acc = (bytes[k - 1] as u64) + 256 * acc;
        k = k - 1;
    }
    assert(bytes@.take(n as int).skip(0) =~= bytes@.take(n as int));
    acc
}

/// `u32` and `u64` replies read the bytes little-endian: the first byte is
/// the lowest.
pub proof fn law_read_little_endian(b: Seq<u8>)
    requires
        b.len() >= 8,
    ensures
        le_value(b.take(4)) == b[0] + 0x100 * b[1] + 0x1_0000 * b[2] + 0x100_0000 * b[3],
        le_value(b.take(8)) == b[0] + 0x100 * b[1] + 0x1_0000 * b[2] + 0x100_0000 * b[3]
            + 0x1_0000_0000 * b[4] + 0x100_0000_0000 * b[5] + 0x1_0000_0000_0000 * b[6]
            + 0x100_0000_0000_0000 * b[7],
        read_text(ReadKind::U32, b) == seq!['0', 'x'] + hex(le_value(b.take(4))),
        read_text(ReadKind::U64, b) == seq!['0', 'x'] + hex(le_value(b.take(8))),
{
    reveal_with_fuel(le_value, 9);
    let t4 = b.take(4);
    let t8 = b.take(8);
    assert(t4.drop_first() =~= b.subrange(1, 4));
    assert(b.subrange(1, 4).drop_first() =~= b.subrange(2, 4));
    assert(b.subrange(2, 4).drop_first() =~= b.subrange(3, 4));
    assert(b.subrange(3, 4).drop_first() =~= b.subrange(4, 4));
    assert(t8.drop_first() =~= b.subrange(1, 8));
    assert(b.subrange(1, 8).drop_first() =~= b.subrange(2, 8));
    assert(b.subrange(2, 8).drop_first() =~= b.subrange(3, 8));
    assert(b.subrange(3, 8).drop_first() =~= b.subrange(4, 8));
    assert(b.subrange(4, 8).drop_first() =~= b.subrange(5, 8));
    assert(b.subrange(5, 8).drop_first() =~= b.subrange(6, 8));
    assert(b.subrange(6, 8).drop_first() =~= b.subrange(7, 8));
    assert(b.subrange(7, 8).drop_first() =~= b.subrange(8, 8));
}

/// `256` to the `n`.
pub open spec fn pow256(n: nat) -> nat
    decreases n,
{
    if n == 0 {
        1
    } else {
        256 * pow256((n - 1) as nat)
    }
}

proof fn lemma_pow256_mono(a: nat, b: nat)
    requires
        a <= b,
    ensures
        pow256(a) <= pow256(b),
        pow256(8) == 0x1_0000_0000_0000_0000,
    decreases b,
{
    if a < b {
        lemma_pow256_mono(a, (b - 1) as nat);
    }
    assert(pow256(8) == 0x1_0000_0000_0000_0000) by {
        reveal_with_fuel(pow256, 9);
    }
}

/// The reply to a read of `bytes`: two lower-case hexadecimal digits a byte,
/// or `0x` and the little-endian number in its first four or eight bytes.
pub fn read_reply(kind: ReadKind, bytes: &[u8]) -> (r: String)
    requires
        kind == ReadKind::U32 ==> bytes.len() >= 4,
        kind == ReadKind::U64 ==> bytes.len() >= 8,
    ensures
        r@ == read_text(kind, bytes@),
{
    let mut out = String::new();
    match kind {
        ReadKind::Bytes => {
            let mut i: usize = 0;
            assert(bytes@.take(0) =~= Seq::<u8>::empty());
            while i < bytes.len()
                invariant
                    i <= bytes.len(),
                    out@ == bytes_hex(bytes@.take(i as int)),
                decreases bytes.len() - i,
            {
                assert(bytes@.take(i + 1).drop_last() =~= bytes@.take(i as int));
                push_hex2(&mut out, bytes[i], false);
                i = i + 1;
            }
            assert(bytes@.take(i as int) =~= bytes@);
        },
        ReadKind::U32 => {
            push_char(&mut out, '0');
            push_char(&mut out, 'x');
            push_hex(&mut out, le_of(bytes, 4));
            assert(out@ =~= read_text(kind, bytes@));
        },
        ReadKind::U64 => {
            push_char(&mut out, '0');
            push_char(&mut out, 'x');
            push_hex(&mut out, le_of(bytes, 8));
            assert(out@ =~= read_text(kind, bytes@));
        },
    }
    out
}

// ---- the connection -----------------------------------------------------------------

/// A client line asks to stream the log: it is `tail`, white space around it
/// aside.
pub fn is_tail(line: &str) -> (r: bool)
    ensures
        r == (trim(line@) == "tail"@),
{
    let v = chars_of(line);
    let (a, b) = trim_bounds(&v, 0, v.len());
    assert(v@.subrange(0, v.len() as int) =~= line@);
    let t = chars_of("tail");
    if b - a != t.len() {
        return false;
    }
    let mut k: usize = 0;
    while k < t.len()
        invariant
            k <= t.len(),
            b - a == t.len(),
            a <= b <= v.len(),
            v@.subrange(a as int, b as int) == trim(line@),
            t@ == "tail"@,
            forall|m: int| 0 <= m < k ==> v@[a + m] == t@[m],
        decreases t.len() - k,
    {
        if v[a + k] != t[k] {
            assert(v@.subrange(a as int, b as int)[k as int] != t@[k as int]);
            return false;
        }
        k = k + 1;
    }
    assert(v@.subrange(a as int, b as int) =~= t@);
    true
}

/// A reply as the port sends it: the text, then a line holding `.`.
pub fn frame(reply: &str) -> (r: String)
    ensures
        r@ == reply@ + "\n.\n"@,
{
    let mut out = String::new();
    push_str(&mut out, reply);
    push_str(&mut out, "\n.\n");
    out
}

/// What the port does with one client line.
pub enum ClientStep {
    /// Attach a log stream to this connection and send `reply`.
    Tail { reply: String },
    /// Carry out the action and send its reply, framed.
    Answer(Action),
}

/// What one client line asks of its connection: `tail`, white space around
/// it aside, attaches a log stream and is answered `tailing`; any other line
/// is a command, read without the white space around it.
pub fn client_step<F>(jobs: &Jobs<F>, line: &str) -> (r: ClientStep)
    requires
        jobs.wf(),
    ensures
        trim(line@) == "tail"@ ==> (r matches ClientStep::Tail { reply } && reply@ == "tailing"@
            + "\n.\n"@),
        trim(line@) != "tail"@ ==> (r matches ClientStep::Answer(a) && handled(
            jobs.names(),
            trim(line@),
            a,
        ) && (a matches Action::Read { len, .. } ==> len <= MAX_READ)),
{
    if is_tail(line) {
        return ClientStep::Tail { reply: frame("tailing") };
    }
    let v = chars_of(line);
    let (a, b) = trim_bounds(&v, 0, v.len());
    assert(v@.subrange(0, v.len() as int) =~= line@);
    let t = text_of(&v, a, b);
    ClientStep::Answer(handle(jobs, t.as_str()))
}

/// The reply to a read: `error: unreadable` when the bytes could not all be
/// read, else `read_reply` of them.
pub fn read_result(kind: ReadKind, bytes: Option<&[u8]>) -> (r: String)
    requires
        bytes matches Some(b) ==> (kind == ReadKind::U32 ==> b.len() >= 4) && (kind
            == ReadKind::U64 ==> b.len() >= 8),
    ensures
        match bytes {
            Some(b) => r@ == read_text(kind, b@),
            None => r@ == "error: unreadable"@,
        },
{
    match bytes {
        Some(b) => read_reply(kind, b),
        None => "error: unreadable".to_owned(),
    }
}

/// A log line as a `tail` receives it: `log `, the line, a line break.
pub fn tail_line(line: &str) -> (r: String)
    ensures
        r@ == "log "@ + line@ + "\n"@,
{
    let mut out = String::new();
    push_str(&mut out, "log ");
    push_str(&mut out, line);
    push_str(&mut out, "\n");
    out
}

/// Queued jobs run when the pump runs on the main thread: a main thread is
/// known and it is the current one.
pub fn runs_here(main: u32, current: u32) -> (r: bool)
    ensures
        r == (main != 0 && current == main),
{
    main != 0 && current == main
}

/// The game's main window: a visible top-level window with a title, owned
/// by this process.
pub fn is_main_window(owner: u32, this_process: u32, visible: bool, title_len: i32) -> (r: bool)
    ensures
        r == (owner == this_process && visible && title_len > 0),
{
    owner == this_process && visible && title_len > 0
}

// ---- tails --------------------------------------------------------------------------

/// The items whose flag is set, in order.
pub open spec fn kept<T>(items: Seq<T>, keep: Seq<bool>) -> Seq<T>
    decreases items.len(),
{
    if items.len() == 0 {
        seq![]
    } else if keep[items.len() - 1] {
        kept(items.drop_last(), keep).push(items.last())
    } else {
        kept(items.drop_last(), keep)
    }
}

proof fn lemma_kept_prefix<T>(items: Seq<T>, keep: Seq<bool>, k: int)
    requires
        0 <= k < items.len(),
    ensures
        kept(items.take(k + 1), keep) == if keep[k] {
            kept(items.take(k), keep).push(items[k])
        } else {
            kept(items.take(k), keep)
        },
{
    assert(items.take(k + 1).drop_last() =~= items.take(k));
}

/// After a line was sent to every attached `tail`, keeps the tails whose
/// send was delivered, in order; the others are closed.
pub fn publish<T>(items: &mut Vec<T>, keep: &Vec<bool>)
    requires
        keep.len() == old(items).len(),
    ensures
        final(items)@ == kept(old(items)@, keep@),
{
    let ghost all = items@;
    let n = keep.len();
    let mut i: usize = 0;
    let mut k: usize = 0;
    assert(all.take(0) =~= Seq::<T>::empty());
    assert(all.skip(0) =~= all);
    while k < n
        invariant
            n == keep.len(),
            n == all.len(),
            k <= n,
            i <= k,
            items@ == kept(all.take(k as int), keep@) + all.skip(k as int),
            i == kept(all.take(k as int), keep@).len(),
        decreases n - k,
    {
        proof {
            lemma_kept_prefix(all, keep@, k as int);
        }
        assert(all.skip(k as int)[0] == all[k as int]);
        assert(all.skip(k as int).drop_first() =~= all.skip(k + 1));
        if keep[k] {
            assert(items@ =~= kept(all.take(k + 1), keep@) + all.skip(k + 1));
            i = i + 1;
        } else {
            items.remove(i);
            assert(items@ =~= kept(all.take(k + 1), keep@) + all.skip(k + 1));
        }
        k = k + 1;
    }
    assert(all.take(n as int) =~= all);
    assert(all.skip(n as int) =~= Seq::<T>::empty());
    assert(items@ =~= kept(all, keep@));
}

} // verus!
