//! The injector's text handling: finding the game among process and module
//! names, the current session of the payload log, and the console's lines.
use vstd::prelude::*;

use crate::gamelog::occurs_at;
use crate::scan::{trim, trim_bounds};
use crate::text::{chars_of, push_all, push_char, push_str};

verus! {

/// The game's executable.
pub const GAME: &'static str = "H1Z1.exe";

/// The payload's file name.
pub const PAYLOAD: &'static str = "unlock_all.dll";

/// The port the payload's console listens on.
pub const PORT: &'static str = "127.0.0.1:27015";

/// The line the payload logs when it attaches; a session starts after it.
pub const SESSION_MARK: &'static str = "---- unlock-all attached";

/// `s` without its trailing NUL characters.
pub open spec fn trim_nul(s: Seq<char>) -> Seq<char>
    decreases s.len(),
{
    if s.len() > 0 && s.last() == '\0' {
        trim_nul(s.drop_last())
    } else {
        s
    }
}

/// ASCII lower case of a character; other characters as they are.
pub open spec fn ascii_lower(c: char) -> char {
    if 'A' <= c <= 'Z' {
        ((c as u32) + 32) as char
    } else {
        c
    }
}

/// Equal but for the case of ASCII letters, as `str::eq_ignore_ascii_case`.
pub open spec fn eq_ignore_case(a: Seq<char>, b: Seq<char>) -> bool {
    a.len() == b.len() && forall|i: int| 0 <= i < a.len() ==> ascii_lower(#[trigger] a[i])
        == ascii_lower(b[i])
}

fn lower(c: char) -> (r: char)
    ensures
        r == ascii_lower(c),
{
    if 'A' <= c && c <= 'Z' {
        ((c as u8) + 32) as char
    } else {
        c
    }
}

/// A process or module name, as the snapshot's NUL-padded buffer decodes,
/// names `target`: NULs at its end aside and ASCII case aside.
pub fn name_matches(name: &str, target: &str) -> (r: bool)
    ensures
        r == eq_ignore_case(trim_nul(name@), target@),
{
    let v = chars_of(name);
    let t = chars_of(target);
    let mut n = v.len();
    assert(v@.subrange(0, n as int) =~= v@);
    while n > 0 && v[n - 1] == '\0'
        invariant
            n <= v.len(),
            v@ == name@,
            trim_nul(name@) == trim_nul(v@.subrange(0, n as int)),
        decreases n,
    {
        assert(v@.subrange(0, n as int).drop_last() =~= v@.subrange(0, n - 1));
        n = n - 1;
    }
    assert(v@.subrange(0, n as int) =~= v@.take(n as int));
    let ghost s = v@.subrange(0, n as int);
    assert(trim_nul(s) == s);
    if n != t.len() {
        return false;
    }
    let mut i: usize = 0;
    while i < n
        invariant
            i <= n,
            n == t.len(),
            n <= v.len(),
            s == v@.subrange(0, n as int),
            trim_nul(name@) == s,
            t@ == target@,
            forall|k: int| 0 <= k < i ==> ascii_lower(#[trigger] s[k]) == ascii_lower(t@[k]),
        decreases n - i,
    {
        if lower(v[i]) != lower(t[i]) {
            assert(s[i as int] == v@[i as int]);
            return false;
        }
        i = i + 1;
    }
    true
}

/// The last index at which `p` occurs in `s`.
pub open spec fn last_occurrence(s: Seq<char>, p: Seq<char>) -> Option<int> {
    if exists|i: int| occurs_at(s, p, i) {
        Some(choose|i: int| occurs_at(s, p, i) && forall|k: int| i < k ==> !occurs_at(s, p, k))
    } else {
        None
    }
}

/// The log of the current session: what follows the last session mark, or
/// the whole log when it holds none.
pub open spec fn session_text(log: Seq<char>) -> Seq<char> {
    match last_occurrence(log, SESSION_MARK@) {
        Some(i) => log.skip(i + SESSION_MARK@.len()),
        None => log,
    }
}

/// The part of the payload log that the current session wrote.
pub fn last_session(log: &str) -> (r: String)
    ensures
        r@ == session_text(log@),
{
    let v = chars_of(log);
    let m = chars_of(SESSION_MARK);
    let mut out = String::new();
    if m.len() > v.len() {
        assert(!exists|i: int| occurs_at(v@, m@, i));
        push_all(&mut out, &v);
        return out;
    }
    let mut at = v.len() - m.len();
    loop
        invariant
            m.len() <= v.len(),
            at <= v.len() - m.len(),
            v@ == log@,
            m@ == SESSION_MARK@,
            out@ == Seq::<char>::empty(),
            forall|k: int| at < k ==> !occurs_at(v@, m@, k),
        ensures
            forall|k: int| !occurs_at(v@, m@, k),
            out@ == Seq::<char>::empty(),
        decreases at,
    {
        let mut k: usize = 0;
        let mut same = true;
        while k < m.len()
            invariant
                k <= m.len(),
                at + m.len() <= v.len(),
                same == forall|q: int| 0 <= q < k ==> v@[at + q] == m@[q],
            decreases m.len() - k,
        {
            if v[at + k] != m[k] {
                same = false;
            }
            k = k + 1;
        }
        if same {
            assert(v@.subrange(at as int, at + m.len()) =~= m@);
            assert(occurs_at(v@, m@, at as int));
            assert(last_occurrence(v@, m@) == Some(at as int)) by {
                let j = choose|j: int| occurs_at(v@, m@, j) && forall|q: int| j < q ==> !occurs_at(v@, m@, q);
                assert(occurs_at(v@, m@, j) && forall|q: int| j < q ==> !occurs_at(v@, m@, q));
                if j < at {
                    assert(!occurs_at(v@, m@, at as int));
                }
                if j > at {
                    assert(!occurs_at(v@, m@, j));
                }
                assert(j == at);
            }
            let mut p = at + m.len();
            assert(v@.subrange(p as int, p as int) =~= Seq::<char>::empty());
            while p < v.len()
                invariant
                    at + m.len() <= p <= v.len(),
                    out@ == v@.subrange(at + m.len(), p as int),
                decreases v.len() - p,
            {
                push_char(&mut out, v[p]);
                assert(v@.subrange(at + m.len(), p + 1) =~= v@.subrange(at + m.len(), p as int).push(
                    v@[p as int],
                ));
                p = p + 1;
            }
            assert(out@ =~= v@.skip(at + m.len()));
            return out;
        }
        assert(!occurs_at(v@, m@, at as int)) by {
            let q = choose|q: int| 0 <= q < m.len() && v@[at + q] != m@[q];
            assert(v@.subrange(at as int, at + m.len())[q] != m@[q]);
        }
        if at == 0 {
            assert forall|k: int| !occurs_at(v@, m@, k) by {
                if k < 0 {
                } else if k > 0 {
                }
            }
            break;
        }
        at = at - 1;
    }
    assert(!exists|q: int| occurs_at(v@, m@, q));
    push_all(&mut out, &v);
    out
}

/// What the console prints for a line the port sends: a log line indented,
/// nothing for the end-of-reply line `.`, any other line after `> `.
pub open spec fn echo_text(line: Seq<char>) -> Option<Seq<char>> {
    if "log "@.is_prefix_of(line) {
        Some("  "@ + line.skip(4))
    } else if line == "."@ {
        None
    } else {
        Some("> "@ + line)
    }
}

/// The console's rendering of a line from the port.
pub fn echo(line: &str) -> (r: Option<String>)
    ensures
        match r {
            Some(s) => echo_text(line@) == Some(s@),
            None => echo_text(line@) is None,
        },
{
    let v = chars_of(line);
    proof {
        reveal_strlit("log ");
        reveal_strlit(".");
        reveal_strlit("  ");
        reveal_strlit("> ");
    }
    if v.len() >= 4 && v[0] == 'l' && v[1] == 'o' && v[2] == 'g' && v[3] == ' ' {
        assert(v@.subrange(0, 4) =~= "log "@);
        let mut out = String::new();
        push_str(&mut out, "  ");
        let mut p: usize = 4;
        while p < v.len()
            invariant
                4 <= p <= v.len(),
                out@ == "  "@ + v@.subrange(4, p as int),
            decreases v.len() - p,
        {
            push_char(&mut out, v[p]);
            assert(v@.subrange(4, p + 1) =~= v@.subrange(4, p as int).push(v@[p as int]));
            assert(out@ =~= "  "@ + v@.subrange(4, p + 1));
            p = p + 1;
        }
        assert(v@.subrange(4, p as int) =~= line@.skip(4));
        return Some(out);
    }
    assert(!"log "@.is_prefix_of(line@)) by {
        if "log "@.is_prefix_of(line@) {
            let pre = line@.subrange(0, 4);
            assert(pre == "log "@);
            assert(pre[0] == 'l' && pre[1] == 'o' && pre[2] == 'g' && pre[3] == ' ');
            assert(v@[0] == 'l' && v@[1] == 'o' && v@[2] == 'g' && v@[3] == ' ');
        }
    }
    if v.len() == 1 && v[0] == '.' {
        assert(v@ =~= "."@);
        return None;
    }
    assert(line@ != "."@) by {
        if line@ == "."@ {
            assert(v@.len() == 1 && v@[0] == '.');
        }
    }
    let mut out = String::new();
    push_str(&mut out, "> ");
    push_all(&mut out, &v);
    Some(out)
}

/// What a typed console line does.
pub enum Input {
    /// Nothing: the line is blank.
    Skip,
    /// Close the console: `quit` or `exit`.
    Quit,
    /// Send this to the port.
    Send(String),
}

/// A typed line: blank lines are skipped, `quit` and `exit` close the
/// console, any other line is sent trimmed, with a line end.
pub fn input(line: &str) -> (r: Input)
    ensures
        ({
            let t = trim(line@);
            if t.len() == 0 {
                r is Skip
            } else if t == "quit"@ || t == "exit"@ {
                r is Quit
            } else {
                r matches Input::Send(s) && s@ == t.push('\n')
            }
        }),
{
    let v = chars_of(line);
    let (a, b) = trim_bounds(&v, 0, v.len());
    assert(v@.subrange(0, v.len() as int) =~= line@);
    let ghost t = v@.subrange(a as int, b as int);
    if a == b {
        return Input::Skip;
    }
    let mut s = String::new();
    let mut p = a;
    while p < b
        invariant
            a <= p <= b <= v.len(),
            s@ == v@.subrange(a as int, p as int),
        decreases b - p,
    {
        push_char(&mut s, v[p]);
        assert(v@.subrange(a as int, p + 1) =~= v@.subrange(a as int, p as int).push(v@[p as int]));
        p = p + 1;
    }
    let quit = "quit".to_owned();
    let exit = "exit".to_owned();
    if s == quit || s == exit {
        return Input::Quit;
    }
    push_char(&mut s, '\n');
    Input::Send(s)
}

/// The ASCII upper case of a character; other characters as they are.
pub open spec fn ascii_upper(c: char) -> char {
    if 'a' <= c <= 'z' {
        ((c as u32) - 32) as char
    } else {
        c
    }
}

/// A name matches itself whatever the case of its ASCII letters and however
/// many NULs pad it, and never matches a name of another length.
pub proof fn law_name_matching(name: Seq<char>, other: Seq<char>, pad: nat)
    requires
        name.len() == 0 || name.last() != '\0',
    ensures
        eq_ignore_case(trim_nul(name + Seq::new(pad, |i: int| '\0')), name),
        eq_ignore_case(trim_nul(name.map_values(|c: char| ascii_upper(c))), name),
        eq_ignore_case(name.map_values(|c: char| ascii_upper(c)), name),
        other.len() != name.len() ==> !eq_ignore_case(other, name),
    decreases pad,
{
    let padded = name + Seq::new(pad, |i: int| '\0');
    if pad == 0 {
        assert(padded =~= name);
    } else {
        law_name_matching(name, other, (pad - 1) as nat);
        assert(padded.drop_last() =~= name + Seq::new((pad - 1) as nat, |i: int| '\0'));
    }
    let up = name.map_values(|c: char| ascii_upper(c));
    assert forall|i: int| 0 <= i < up.len() implies ascii_lower(#[trigger] up[i]) == ascii_lower(
        name[i],
    ) by {
        let c = name[i];
        if 'a' <= c <= 'z' {
            assert(((c as u32) - 32) as char as u32 == (c as u32) - 32);
        }
    }
    if up.len() > 0 {
        let c = name.last();
        assert(up.last() == ascii_upper(c));
        if 'a' <= c <= 'z' {
            assert(((c as u32) - 32) as char as u32 == (c as u32) - 32);
        }
    }
    assert(trim_nul(up) == up);
}

proof fn lemma_last_exists(s: Seq<char>, p: Seq<char>, i0: int)
    requires
        occurs_at(s, p, i0),
    ensures
        exists|i: int| occurs_at(s, p, i) && forall|k: int| i < k ==> !occurs_at(s, p, k),
    decreases s.len() - i0,
{
    if exists|k: int| i0 < k && occurs_at(s, p, k) {
        let k = choose|k: int| i0 < k && occurs_at(s, p, k);
        lemma_last_exists(s, p, k);
    } else {
        assert(forall|k: int| i0 < k ==> !occurs_at(s, p, k));
    }
}

/// The current session is what follows the last session mark: it ends the
/// log, holds no mark itself, and when the log has a mark it comes right
/// after one.
pub proof fn law_session_after_last_mark(log: Seq<char>)
    ensures
        session_text(log).len() <= log.len(),
        log.skip(log.len() - session_text(log).len()) == session_text(log),
        forall|k: int| !occurs_at(session_text(log), SESSION_MARK@, k),
        (exists|i: int| occurs_at(log, SESSION_MARK@, i)) ==> occurs_at(
            log,
            SESSION_MARK@,
            log.len() - session_text(log).len() - SESSION_MARK@.len(),
        ),
{
    let m = SESSION_MARK@;
    reveal_strlit("---- unlock-all attached");
    assert(m.len() > 0);
    if exists|i: int| occurs_at(log, m, i) {
        let i0 = choose|i: int| occurs_at(log, m, i);
        lemma_last_exists(log, m, i0);
    }
    match last_occurrence(log, m) {
        Some(i) => {
            let st = log.skip(i + m.len());
            assert(occurs_at(log, m, i) && forall|k: int| i < k ==> !occurs_at(log, m, k));
            assert(log.skip(log.len() - st.len()) =~= st);
            assert forall|k: int| !occurs_at(st, m, k) by {
                if occurs_at(st, m, k) {
                    assert(log.subrange(i + m.len() + k, i + m.len() + k + m.len()) =~= st.subrange(
                        k,
                        k + m.len(),
                    ));
                    assert(occurs_at(log, m, i + m.len() + k));
                    assert(false);
                }
            }
        },
        None => {
            assert(log.skip(0) =~= log);
        },
    }
}

} // verus!
