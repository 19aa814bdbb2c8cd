//! The cosmetics grid's lock badge.
//!
//! The grid joins every prototype x skin pair against the account-item data
//! source, which holds one row per item the account owns; a skin without a
//! row is drawn locked. After the game populates the source, one row per skin
//! definition the account does not hold is added through the game's own row
//! adder, and the two helpers the adder stores the count and owned columns
//! from answer 1 for those rows.
use vstd::prelude::*;

use crate::process::{is_user_ptr, user_ptr};
use crate::text::{dec, dec_list, push_char, push_dec, push_dec_list};

verus! {

/// The account-item manager's offset in the inventory object.
pub const ACCT_MGR_OFF: u64 = 0xE8B0;

/// The data source's offset in the account-item manager.
pub const ACCT_SOURCE_OFF: u64 = 0x8A0;

/// The account-item data source for an inventory object: 0 while the
/// inventory does not exist yet.
pub fn source(inventory: u64) -> (r: u64)
    ensures
        r == if is_user_ptr(inventory) {
            inventory + ACCT_MGR_OFF + ACCT_SOURCE_OFF
        } else {
            0
        },
{
    if !user_ptr(inventory) {
        return 0;
    }
    inventory + ACCT_MGR_OFF + ACCT_SOURCE_OFF
}

/// A populate adds the skin rows when it rebuilds the source: when forced,
/// or when the source was not populated yet.
pub fn adds_rows(force: u8, populated: u8) -> (r: bool)
    ensures
        r == (force != 0 || populated == 0),
{
    force != 0 || populated == 0
}

/// The rows can be added only once the game has its item definitions and the
/// inventory: both pointers must be plausible.
pub fn can_add_rows(definitions: u64, inventory: u64) -> (r: bool)
    ensures
        r == (is_user_ptr(definitions) && is_user_ptr(inventory)),
{
    user_ptr(definitions) && user_ptr(inventory)
}

/// The ids of `skins` that `held` does not contain, in order.
pub open spec fn missing(skins: Seq<u32>, held: Seq<u32>) -> Seq<u32>
    decreases skins.len(),
{
    if skins.len() == 0 {
        seq![]
    } else if held.contains(skins.last()) {
        missing(skins.drop_last(), held)
    } else {
        missing(skins.drop_last(), held).push(skins.last())
    }
}

/// One row for each skin the account does not hold, and none for another:
/// an id gets a row exactly when it is among the skins and not among the
/// held ids.
pub proof fn law_rows_for_unheld_skins(skins: Seq<u32>, held: Seq<u32>, id: u32)
    ensures
        missing(skins, held).contains(id) <==> skins.contains(id) && !held.contains(id),
    decreases skins.len(),
{
    if skins.len() > 0 {
        let rest = skins.drop_last();
        law_rows_for_unheld_skins(rest, held, id);
        assert(skins == rest.push(skins.last()));
        if skins.contains(id) && !rest.contains(id) {
            let k = choose|k: int| 0 <= k < skins.len() && skins[k] == id;
            if k < rest.len() {
                assert(rest[k] == id);
            }
        }
        if rest.contains(id) {
            let k = choose|k: int| 0 <= k < rest.len() && rest[k] == id;
            assert(skins[k] == id);
        }
        if missing(rest, held).contains(id) {
            let k = choose|k: int| 0 <= k < missing(rest, held).len() && missing(rest, held)[k] == id;
            if !held.contains(skins.last()) {
                assert(missing(skins, held)[k] == id);
            }
        }
        if !held.contains(skins.last()) {
            assert(missing(skins, held).last() == skins.last());
            if missing(skins, held).contains(id) && id != skins.last() {
                let k = choose|k: int| 0 <= k < missing(skins, held).len() && missing(skins, held)[k] == id;
                assert(missing(rest, held)[k] == id);
            }
        }
    }
}

fn holds(held: &[u32], id: u32) -> (r: bool)
    ensures
        r == held@.contains(id),
{
    let mut i: usize = 0;
    while i < held.len()
        invariant
            i <= held.len(),
            forall|k: int| 0 <= k < i ==> held@[k] != id,
        decreases held.len() - i,
    {
        if held[i] == id {
            assert(held@[i as int] == id);
            return true;
        }
        i = i + 1;
    }
    false
}

/// The skin definitions that get a row: every skin the account does not
/// hold, in the order of `skins`.
pub fn rows_to_add(skins: &[u32], held: &[u32]) -> (r: Vec<u32>)
    ensures
        r@ == missing(skins@, held@),
{
    let mut r: Vec<u32> = Vec::new();
    let mut i: usize = 0;
    assert(skins@.take(0) =~= Seq::<u32>::empty());
    while i < skins.len()
        invariant
            i <= skins.len(),
            r@ == missing(skins@.take(i as int), held@),
        decreases skins.len() - i,
    {
        assert(skins@.take(i + 1).drop_last() =~= skins@.take(i as int));
        assert(skins@.take(i + 1).last() == skins@[i as int]);
        if !holds(held, skins[i]) {
            r.push(skins[i]);
        }
        i = i + 1;
    }
    assert(skins@.take(i as int) =~= skins@);
    r
}

/// The count column while skin rows are being added: 1 where the account
/// holds none, the game's count otherwise.
pub fn row_count(count: u32, adding: bool) -> (r: u32)
    ensures
        r == if count == 0 && adding {
            1
        } else {
            count
        },
{
    if count == 0 && adding {
        1
    } else {
        count
    }
}

/// The owned column while skin rows are being added: 1 where the game says
/// not owned, the game's answer otherwise.
pub fn row_owned(owned: u8, adding: bool) -> (r: u8)
    ensures
        r == if owned == 0 && adding {
            1
        } else {
            owned
        },
{
    if owned == 0 && adding {
        1
    } else {
        owned
    }
}

// ---- the console jobs' replies ------------------------------------------------------

/// Non-decreasing order.
pub open spec fn ascending(s: Seq<u32>) -> bool {
    forall|i: int, j: int| 0 <= i <= j < s.len() ==> s[i] <= s[j]
}

/// The ids in ascending order.
pub fn sorted(ids: &[u32]) -> (r: Vec<u32>)
    ensures
        ascending(r@),
        r@.to_multiset() == ids@.to_multiset(),
{
    broadcast use vstd::seq_lib::group_to_multiset_ensures;

    let mut r: Vec<u32> = Vec::new();
    let mut k: usize = 0;
    assert(ids@.take(0) =~= Seq::<u32>::empty());
    while k < ids.len()
        invariant
            k <= ids.len(),
            ascending(r@),
            r@.to_multiset() == ids@.take(k as int).to_multiset(),
        decreases ids.len() - k,
    {
        let x = ids[k];
        let mut p: usize = 0;
        while p < r.len() && r[p] <= x
            invariant
                p <= r.len(),
                forall|q: int| 0 <= q < p ==> r@[q] <= x,
            decreases r.len() - p,
        {
            p = p + 1;
        }
        let ghost before = r@;
        r.insert(p, x);
        assert(r@ == before.insert(p as int, x));
        assert(ascending(r@)) by {
            assert forall|a: int, b: int| 0 <= a <= b < r@.len() implies r@[a] <= r@[b] by {
                if a < p && b > p {
                    assert(before[a] <= before[b - 1]);
                } else if a > p {
                    assert(before[a - 1] <= before[b - 1]);
                } else if a == p && b > p {
                    assert(x < before[p as int]);
                    assert(before[p as int] <= before[b - 1]);
                } else if a < p && b < p {
                    assert(before[a] <= before[b]);
                }
            }
        }
        assert(ids@.take(k + 1) =~= ids@.take(k as int).push(x));
        proof {
            vstd::seq_lib::to_multiset_insert(before, p as int, x);
            vstd::seq_lib::to_multiset_build(ids@.take(k as int), x);
        }
        assert(before.insert(p as int, x).to_multiset() == before.to_multiset().insert(x));
        assert(ids@.take(k as int).push(x).to_multiset() == ids@.take(k as int).to_multiset().insert(
            x,
        ));
        k = k + 1;
    }
    assert(ids@.take(k as int) =~= ids@);
    r
}

/// The ids in ascending order: the one ascending arrangement of them.
pub open spec fn ascending_of(ids: Seq<u32>) -> Seq<u32> {
    choose|t: Seq<u32>| ascending(t) && t.to_multiset() == ids.to_multiset()
}

/// An ascending arrangement of ids is the one `ascending_of` names.
pub proof fn lemma_ascending_of(t: Seq<u32>, ids: Seq<u32>)
    requires
        ascending(t),
        t.to_multiset() == ids.to_multiset(),
    ensures
        t == ascending_of(ids),
{
    let u = ascending_of(ids);
    assert(ascending(u) && u.to_multiset() == ids.to_multiset());
    let leq = |a: u32, b: u32| a <= b;
    assert(vstd::relations::sorted_by(t, leq));
    assert(vstd::relations::sorted_by(u, leq));
    assert(vstd::relations::total_ordering(leq));
    vstd::seq_lib::lemma_sorted_unique(t, u, leq);
}

/// The reply to the `held` job: the number of held ids, then the ids in
/// ascending order as a list.
pub fn held_report(held: &[u32]) -> (r: String)
    ensures
        r@ == dec(held@.len()) + seq![' '] + dec_list(ascending_of(held@)),
{
    let ids = sorted(held);
    proof {
        lemma_ascending_of(ids@, held@);
    }
    let mut out = String::new();
    push_dec(&mut out, held.len() as u64);
    push_char(&mut out, ' ');
    push_dec_list(&mut out, ids.as_slice());
    out
}

/// How many skin ids the `skins` job lists.
pub const SKINS_SHOWN: usize = 40;

/// The reply to the `skins` job: the number of skin ids, then the first
/// `SKINS_SHOWN` of them as a list.
pub fn skins_report(ids: &[u32]) -> (r: String)
    ensures
        r@ == dec(ids@.len()) + seq![' '] + dec_list(ids@.take(
            if ids@.len() < SKINS_SHOWN {
                ids@.len() as int
            } else {
                SKINS_SHOWN as int
            },
        )),
{
    let n = if ids.len() < SKINS_SHOWN {
        ids.len()
    } else {
        SKINS_SHOWN
    };
    let shown = vstd::slice::slice_subrange(ids, 0, n);
    assert(shown@ =~= ids@.take(n as int));
    let mut out = String::new();
    push_dec(&mut out, ids.len() as u64);
    push_char(&mut out, ' ');
    push_dec_list(&mut out, shown);
    out
}

} // verus!
