//! The walks over the game's lists that the lock badge needs: the item ids
//! the account-item manager holds, and every skin definition the cosmetics
//! screen can show.
//!
//! The game's memory is read by the caller: a walk names the read it needs
//! next, and is fed the value read. Each walk is stated against a model of
//! memory as bytes, `spec_fn(u64) -> u8`: fed the values that memory holds,
//! it finds exactly what the list traversal it stands for finds there.
use vstd::prelude::*;

use crate::process::{is_user_ptr, user_ptr};

verus! {

// ---- memory ---------------------------------------------------------------------------

/// The little-endian number in `n` bytes from `a`.
pub open spec fn le_bytes(m: spec_fn(u64) -> u8, a: u64, n: nat) -> nat
    decreases n,
{
    if n == 0 {
        0
    } else {
        m(a) as nat + 256 * le_bytes(m, (a + 1) as u64, (n - 1) as nat)
    }
}

/// An unaligned 64-bit read.
pub open spec fn read64(m: spec_fn(u64) -> u8, a: u64) -> u64 {
    le_bytes(m, a, 8) as u64
}

/// An unaligned 32-bit read.
pub open spec fn read32(m: spec_fn(u64) -> u8, a: u64) -> u32 {
    le_bytes(m, a, 4) as u32
}

/// A read a walk needs.
#[derive(Clone, Copy, PartialEq, Eq, Structural)]
pub enum Read {
    /// 64 bits at the address.
    Qword(u64),
    /// 32 bits at the address, widened.
    Dword(u64),
}

/// What memory answers to a read.
pub open spec fn answer(m: spec_fn(u64) -> u8, r: Read) -> u64 {
    match r {
        Read::Qword(a) => read64(m, a),
        Read::Dword(a) => read32(m, a) as u64,
    }
}

/// The ids in first-seen order, each once.
pub open spec fn unique(s: Seq<u32>) -> Seq<u32>
    decreases s.len(),
{
    if s.len() == 0 {
        seq![]
    } else if unique(s.drop_last()).contains(s.last()) {
        unique(s.drop_last())
    } else {
        unique(s.drop_last()).push(s.last())
    }
}

/// The ids other than 0, in first-seen order, each once.
pub open spec fn unique_nonzero(s: Seq<u32>) -> Seq<u32>
    decreases s.len(),
{
    if s.len() == 0 {
        seq![]
    } else if s.last() == 0 || unique_nonzero(s.drop_last()).contains(s.last()) {
        unique_nonzero(s.drop_last())
    } else {
        unique_nonzero(s.drop_last()).push(s.last())
    }
}

/// Each skin id is reported once, none is 0, and every id other than 0
/// that was read is reported.
pub proof fn law_unique_nonzero(s: Seq<u32>)
    ensures
        unique_nonzero(s).no_duplicates(),
        forall|i: int| 0 <= i < unique_nonzero(s).len() ==> #[trigger] unique_nonzero(s)[i] != 0,
        forall|x: u32| #[trigger] unique_nonzero(s).contains(x) <==> x != 0 && s.contains(x),
    decreases s.len(),
{
    if s.len() > 0 {
        let rest = s.drop_last();
        law_unique_nonzero(rest);
        let u = unique_nonzero(rest);
        assert(s == rest.push(s.last()));
        assert forall|x: u32| #[trigger] unique_nonzero(s).contains(x) <==> x != 0 && s.contains(x) by {
            if s.contains(x) && !rest.contains(x) {
                let k = choose|k: int| 0 <= k < s.len() && s[k] == x;
                if k < rest.len() {
                    assert(rest[k] == x);
                }
                assert(x == s.last());
            }
            if rest.contains(x) {
                let k = choose|k: int| 0 <= k < rest.len() && rest[k] == x;
                assert(s[k] == x);
            }
            if !(s.last() == 0 || u.contains(s.last())) {
                let v = u.push(s.last());
                if u.contains(x) {
                    let k = choose|k: int| 0 <= k < u.len() && u[k] == x;
                    assert(v[k] == x);
                }
                if v.contains(x) && x != s.last() {
                    let k = choose|k: int| 0 <= k < v.len() && v[k] == x;
                    assert(u[k] == x);
                }
                assert(v[u.len() as int] == s.last());
            }
        }
    }
}

/// Each held id is reported once, and every id read is reported.
pub proof fn law_unique(s: Seq<u32>)
    ensures
        unique(s).no_duplicates(),
        forall|x: u32| #[trigger] unique(s).contains(x) <==> s.contains(x),
    decreases s.len(),
{
    if s.len() > 0 {
        let rest = s.drop_last();
        law_unique(rest);
        let u = unique(rest);
        assert(s == rest.push(s.last()));
        assert forall|x: u32| #[trigger] unique(s).contains(x) <==> s.contains(x) by {
            if s.contains(x) && !rest.contains(x) {
                let k = choose|k: int| 0 <= k < s.len() && s[k] == x;
                if k < rest.len() {
                    assert(rest[k] == x);
                }
                assert(x == s.last());
            }
            if rest.contains(x) {
                let k = choose|k: int| 0 <= k < rest.len() && rest[k] == x;
                assert(s[k] == x);
            }
            if !u.contains(s.last()) {
                let v = u.push(s.last());
                if u.contains(x) {
                    let k = choose|k: int| 0 <= k < u.len() && u[k] == x;
                    assert(v[k] == x);
                }
                if v.contains(x) && x != s.last() {
                    let k = choose|k: int| 0 <= k < v.len() && v[k] == x;
                    assert(u[k] == x);
                }
                assert(v[u.len() as int] == s.last());
            }
        }
    }
}

fn contains(v: &Vec<u32>, x: u32) -> (r: bool)
    ensures
        r == v@.contains(x),
{
    let mut i: usize = 0;
    while i < v.len()
        invariant
            i <= v.len(),
            forall|k: int| 0 <= k < i ==> v@[k] != x,
        decreases v.len() - i,
    {
        if v[i] == x {
            assert(v@[i as int] == x);
            return true;
        }
        i = i + 1;
    }
    false
}

// ---- held items -----------------------------------------------------------------------

/// The most nodes a walk follows in one list.
pub const LIST_LIMIT: u32 = 4096;

/// Where the account-item manager keeps the head of its item list `l`
/// (0 or 1).
pub open spec fn head_off(l: usize) -> u64 {
    if l == 0 {
        24
    } else {
        1192
    }
}

/// Where an item of list `l` links to the next node.
pub open spec fn next_off(l: usize) -> u64 {
    if l == 0 {
        216
    } else {
        280
    }
}

fn head_offset(l: usize) -> (r: u64)
    ensures
        r == head_off(l),
{
    if l == 0 {
        24
    } else {
        1192
    }
}

fn next_offset(l: usize) -> (r: u64)
    ensures
        r == next_off(l),
{
    if l == 0 {
        216
    } else {
        280
    }
}

/// The ids of a held-item list from `node` on, `g` nodes having been
/// visited: each node's item holds its id at `+200` and the next node at
/// `+next`.
pub open spec fn held_list(m: spec_fn(u64) -> u8, node: u64, g: nat, next: u64) -> Seq<u32>
    decreases LIST_LIMIT - g,
{
    if is_user_ptr(node) && g < LIST_LIMIT {
        let item = (node + 8) as u64;
        seq![read32(m, (item + 200) as u64)] + held_list(m, read64(m, (item + next) as u64), g + 1, next)
    } else {
        seq![]
    }
}

/// The ids the account-item manager at `manager` holds, from both lists.
pub open spec fn held_raw(m: spec_fn(u64) -> u8, manager: u64) -> Seq<u32> {
    held_list(m, read64(m, (manager + 24) as u64), 0, 216) + held_list(
        m,
        read64(m, (manager + 1192) as u64),
        0,
        280,
    )
}

#[derive(Clone, Copy, PartialEq, Eq, Structural)]
enum HeldPhase {
    Head,
    Item,
    Next,
    Done,
}

/// A walk over the account-item manager's two item lists.
pub struct HeldWalk {
    manager: u64,
    list: usize,
    phase: HeldPhase,
    item: u64,
    guard: u32,
    ids: Vec<u32>,
    found: Ghost<Seq<u32>>,
}

impl HeldWalk {
    /// The ids read so far, each time it was read.
    pub closed spec fn found(&self) -> Seq<u32> {
        self.found@
    }

    /// The read the walk needs next, if any.
    pub closed spec fn pending(&self) -> Option<Read> {
        match self.phase {
            HeldPhase::Head => Some(Read::Qword((self.manager + head_off(self.list)) as u64)),
            HeldPhase::Item => Some(Read::Dword((self.item + 200) as u64)),
            HeldPhase::Next => Some(Read::Qword((self.item + next_off(self.list)) as u64)),
            HeldPhase::Done => None,
        }
    }

    closed spec fn later_lists(&self, m: spec_fn(u64) -> u8) -> Seq<u32> {
        if self.list == 0 {
            held_list(m, read64(m, (self.manager + 1192) as u64), 0, 280)
        } else {
            seq![]
        }
    }

    /// The ids the walk will still read, from memory `m`.
    pub closed spec fn rest(&self, m: spec_fn(u64) -> u8) -> Seq<u32> {
        let next = next_off(self.list);
        match self.phase {
            HeldPhase::Head => held_list(
                m,
                read64(m, (self.manager + head_off(self.list)) as u64),
                0,
                next,
            ) + self.later_lists(m),
            HeldPhase::Item => seq![read32(m, (self.item + 200) as u64)] + held_list(
                m,
                read64(m, (self.item + next) as u64),
                self.guard as nat,
                next,
            ) + self.later_lists(m),
            HeldPhase::Next => held_list(
                m,
                read64(m, (self.item + next) as u64),
                self.guard as nat,
                next,
            ) + self.later_lists(m),
            HeldPhase::Done => seq![],
        }
    }

    /// An upper bound on the reads the walk still needs.
    pub closed spec fn steps_left(&self) -> nat {
        let per_list = 1 + 2 * LIST_LIMIT;
        let later = if self.list == 0 {
            per_list
        } else {
            0
        };
        (match self.phase {
            HeldPhase::Head => per_list + later,
            HeldPhase::Item => 2 + 2 * (LIST_LIMIT - self.guard) + later,
            HeldPhase::Next => 1 + 2 * (LIST_LIMIT - self.guard) + later,
            HeldPhase::Done => 0,
        }) as nat
    }

    pub closed spec fn wf(&self) -> bool {
        &&& self.list < 2
        &&& self.manager + 1192 <= u64::MAX
        &&& self.guard <= LIST_LIMIT
        &&& (self.phase == HeldPhase::Item || self.phase == HeldPhase::Next) ==> self.item
            < 0x1_0000_0000_0000
        &&& self.ids@ == unique(self.found@)
    }

    /// A walk over the lists of the manager at `manager`.
    pub fn new(manager: u64) -> (w: HeldWalk)
        requires
            manager + 1192 <= u64::MAX,
        ensures
            w.wf(),
            w.found() == Seq::<u32>::empty(),
            forall|m: spec_fn(u64) -> u8| #[trigger] w.rest(m) == held_raw(m, manager),
            w.steps_left() == 2 * (1 + 2 * LIST_LIMIT),
    {
        let w = HeldWalk {
            manager,
            list: 0,
            phase: HeldPhase::Head,
            item: 0,
            guard: 0,
            ids: Vec::new(),
            found: Ghost(Seq::empty()),
        };
        assert(w.ids@ =~= unique(w.found@));
        w
    }

    /// The read the walk needs next; none once it is done.
    pub fn next(&self) -> (r: Option<Read>)
        requires
            self.wf(),
        ensures
            r == self.pending(),
    {
        match self.phase {
            HeldPhase::Head => Some(Read::Qword(self.manager + head_offset(self.list))),
            HeldPhase::Item => Some(Read::Dword(self.item + 200)),
            HeldPhase::Next => Some(Read::Qword(self.item + next_offset(self.list))),
            HeldPhase::Done => None,
        }
    }

    /// Takes the list node at `node` into account.
    fn enter(&mut self, node: u64)
        requires
            old(self).wf(),
            old(self).phase == HeldPhase::Head || old(self).phase == HeldPhase::Next,
        ensures
            final(self).wf(),
            final(self).found() == old(self).found(),
            final(self).steps_left() < old(self).steps_left(),
            forall|m: spec_fn(u64) -> u8| #[trigger]
                final(self).rest(m) == held_list(
                    m,
                    node,
                    if old(self).phase == HeldPhase::Head {
                        0
                    } else {
                        old(self).guard as nat
                    },
                    next_off(old(self).list),
                ) + old(self).later_lists(m),
    {
        if self.phase == HeldPhase::Head {
            self.guard = 0;
        }
        let ghost g = self.guard as nat;
        let ghost l = self.list;
        let ghost before = *self;
        if user_ptr(node) && self.guard < LIST_LIMIT {
            self.guard = self.guard + 1;
            self.item = node + 8;
            self.phase = HeldPhase::Item;
        } else if self.list == 0 {
            self.list = 1;
            self.phase = HeldPhase::Head;
        } else {
            self.phase = HeldPhase::Done;
        }
        assert forall|m: spec_fn(u64) -> u8| #[trigger]
            self.rest(m) == held_list(m, node, g, next_off(l)) + before.later_lists(m) by {
            if is_user_ptr(node) && g < LIST_LIMIT {
                assert(self.rest(m) =~= held_list(m, node, g, next_off(l)) + before.later_lists(
                    m,
                ));
            } else if l == 0 {
                assert(held_list(m, node, g, next_off(l)) =~= Seq::<u32>::empty());
                assert(self.rest(m) =~= held_list(m, node, g, next_off(l)) + before.later_lists(
                    m,
                ));
            } else {
                assert(held_list(m, node, g, next_off(l)) =~= Seq::<u32>::empty());
                assert(self.rest(m) =~= held_list(m, node, g, next_off(l)) + before.later_lists(
                    m,
                ));
            }
        }
    }

    /// Feeds the value of the pending read.
    pub fn feed(&mut self, value: u64)
        requires
            old(self).wf(),
            old(self).pending() is Some,
        ensures
            final(self).wf(),
            final(self).steps_left() < old(self).steps_left(),
            forall|m: spec_fn(u64) -> u8|
                answer(m, old(self).pending()->0) == value ==> final(self).found()
                    + #[trigger] final(self).rest(m) == old(self).found() + old(self).rest(m),
    {
        let ghost before = *self;
        match self.phase {
            HeldPhase::Head => {
                self.enter(value);
                assert forall|m: spec_fn(u64) -> u8|
                    answer(m, before.pending()->0) == value implies self.found() + #[trigger] self.rest(
                        m,
                    ) == before.found() + before.rest(m) by {
                    assert(before.rest(m) == self.rest(m));
                }
            },
            HeldPhase::Item => {
                let id = value as u32;
                self.found = Ghost(self.found@.push(id));
                if !contains(&self.ids, id) {
                    self.ids.push(id);
                }
                self.phase = HeldPhase::Next;
                assert(self.found@.drop_last() =~= before.found@);
                assert forall|m: spec_fn(u64) -> u8|
                    answer(m, before.pending()->0) == value implies self.found() + #[trigger] self.rest(
                        m,
                    ) == before.found() + before.rest(m) by {
                    assert(self.found() + self.rest(m) =~= before.found() + before.rest(m));
                }
            },
            HeldPhase::Next => {
                self.enter(value);
                assert forall|m: spec_fn(u64) -> u8|
                    answer(m, before.pending()->0) == value implies self.found() + #[trigger] self.rest(
                        m,
                    ) == before.found() + before.rest(m) by {
                    assert(before.rest(m) == self.rest(m));
                }
            },
            HeldPhase::Done => {},
        }
    }

    /// The distinct ids read, in first-read order.
    pub fn ids(&self) -> (r: Vec<u32>)
        requires
            self.wf(),
        ensures
            r@ == unique(self.found()),
    {
        self.ids.clone()
    }

    /// A walk with no read pending has nothing more to read.
    pub proof fn lemma_done(&self, m: spec_fn(u64) -> u8)
        requires
            self.wf(),
            self.pending() is None,
        ensures
            self.rest(m) == Seq::<u32>::empty(),
    {
    }
}

/// A finished walk over the held-item lists has read every id the two
/// lists hold, and reports each once.
pub proof fn law_held_walk_complete(w: HeldWalk, m: spec_fn(u64) -> u8, manager: u64)
    requires
        w.wf(),
        w.found() + w.rest(m) == held_raw(m, manager),
        w.pending() is None,
    ensures
        unique(w.found()) == unique(held_raw(m, manager)),
{
    w.lemma_done(m);
    assert(w.found() =~= w.found() + w.rest(m));
}

// ---- skin definitions -------------------------------------------------------------------

/// The most collections a walk visits.
pub const COLLECTION_LIMIT: u32 = 64;

/// The most prototypes a walk visits in one collection.
pub const PROTOTYPE_LIMIT: u32 = 128;

/// The skin manager's family map: a multimap of prototype id -> skin item id
/// with this many buckets, at this offset in the manager.
pub const FAMILY_BUCKETS: u32 = 2048;
pub const FAMILY_MAP: u64 = 0x8E0;

/// The family-map bucket a prototype's skins hang from.
pub open spec fn bucket(skin_manager: u64, prototype: u32) -> u64 {
    (skin_manager + FAMILY_MAP + 8 * (prototype % FAMILY_BUCKETS)) as u64
}

/// The skins of `prototype` in a family-map chain from `node` on, `g` nodes
/// having been visited: a node holds its key, its skin item id at `+4` and
/// the next node at `+32`.
pub open spec fn family_ids(m: spec_fn(u64) -> u8, node: u64, g: nat, prototype: u32) -> Seq<u32>
    decreases LIST_LIMIT - g,
{
    if is_user_ptr(node) && g < LIST_LIMIT {
        (if read32(m, node) == prototype {
            seq![read32(m, (node + 4) as u64)]
        } else {
            seq![]
        }) + family_ids(m, read64(m, (node + 32) as u64), g + 1, prototype)
    } else {
        seq![]
    }
}

/// The skins of the prototypes of a collection from the prototype node
/// `node` on, `g` nodes having been visited: a node holds its prototype id
/// at `+12` and the next node at `+40`.
pub open spec fn prototype_ids(m: spec_fn(u64) -> u8, skin_manager: u64, node: u64, g: nat) -> Seq<
    u32,
>
    decreases PROTOTYPE_LIMIT - g,
{
    if is_user_ptr(node) && g < PROTOTYPE_LIMIT {
        let p = read32(m, (node + 12) as u64);
        family_ids(m, read64(m, bucket(skin_manager, p)), 0, p) + prototype_ids(
            m,
            skin_manager,
            read64(m, (node + 40) as u64),
            g + 1,
        )
    } else {
        seq![]
    }
}

/// The skins of the collections from the list node `node` on, `g` nodes
/// having been visited: a node's item is at `+8`, its prototype list at item
/// `+72`, the next node at item `+0xF8`.
pub open spec fn collection_ids(m: spec_fn(u64) -> u8, skin_manager: u64, node: u64, g: nat) -> Seq<
    u32,
>
    decreases COLLECTION_LIMIT - g,
{
    if is_user_ptr(node) && g < COLLECTION_LIMIT {
        let item = (node + 8) as u64;
        prototype_ids(m, skin_manager, read64(m, (item + 72) as u64), 0) + collection_ids(
            m,
            skin_manager,
            read64(m, (item + 0xF8) as u64),
            g + 1,
        )
    } else {
        seq![]
    }
}

/// Every skin id the UI collection list at `collections` reaches through
/// the skin manager at `skin_manager`, in walk order, repeats and 0
/// included; none when either object does not exist.
pub open spec fn skin_raw(m: spec_fn(u64) -> u8, collections: u64, skin_manager: u64) -> Seq<u32> {
    if is_user_ptr(collections) && is_user_ptr(skin_manager) {
        collection_ids(m, skin_manager, read64(m, (collections + 0x58) as u64), 0)
    } else {
        seq![]
    }
}

/// A prototype's skins hang from bucket `p mod 2048` of the family map at
/// `+0x8E0` in the skin manager, eight bytes a bucket: prototypes share a
/// bucket exactly when their low eleven bits agree.
pub proof fn law_family_bucket(skin_manager: u64, p: u32, q: u32)
    requires
        is_user_ptr(skin_manager),
    ensures
        bucket(skin_manager, p) == skin_manager + 0x8E0 + 8 * (p & 0x7FF),
        bucket(skin_manager, p) == skin_manager + 0x8E0 + 8 * (p % 2048),
        bucket(skin_manager, p) == bucket(skin_manager, q) <==> (p & 0x7FF) == (q & 0x7FF),
{
    assert(p & 0x7FF == p % 2048) by (bit_vector);
    assert(q & 0x7FF == q % 2048) by (bit_vector);
}

/// A prototype node's skins are those of the family chain hanging from
/// bucket `p & 0x7FF` of the skin manager's family map, for the prototype
/// id `p` at the node's `+12`; then come the skins of the next prototype
/// node, at `+40`.
pub proof fn law_prototype_reads_its_bucket(
    m: spec_fn(u64) -> u8,
    skin_manager: u64,
    node: u64,
    g: nat,
)
    requires
        is_user_ptr(skin_manager),
        is_user_ptr(node),
        g < PROTOTYPE_LIMIT,
    ensures
        ({
            let p = read32(m, (node + 12) as u64);
            prototype_ids(m, skin_manager, node, g) == family_ids(
                m,
                read64(m, (skin_manager + 0x8E0 + 8 * (p & 0x7FF)) as u64),
                0,
                p,
            ) + prototype_ids(m, skin_manager, read64(m, (node + 40) as u64), g + 1)
        }),
{
    let p = read32(m, (node + 12) as u64);
    law_family_bucket(skin_manager, p, p);
}

/// A held-item list of one node: the account-item manager at `manager` has
/// the node `node` at its `+24` (or `+1192`), the node's item at `+8` holds
/// the id at `+200` and no further node at `+216` (or `+280`), and the other
/// list is empty; the manager holds just that id.
pub proof fn law_held_single_node(m: spec_fn(u64) -> u8, manager: u64, node: u64, second: bool)
    requires
        is_user_ptr(manager),
        is_user_ptr(node),
        read64(m, (manager + if second { 1192int } else { 24int }) as u64) == node,
        !is_user_ptr(read64(m, (manager + if second { 24int } else { 1192int }) as u64)),
        !is_user_ptr(read64(m, (node + 8 + if second { 280int } else { 216int }) as u64)),
    ensures
        held_raw(m, manager) == seq![read32(m, (node + 208) as u64)],
{
    reveal_with_fuel(held_list, 2);
    let next: u64 = if second { 280 } else { 216 };
    let other = if second { read64(m, (manager + 24) as u64) } else { read64(m, (manager + 1192) as u64) };
    assert(held_list(m, other, 0, if second { 216 } else { 280 }) =~= Seq::<u32>::empty());
    assert(held_list(m, read64(m, (node + 8 + next) as u64), 1, next) =~= Seq::<u32>::empty());
    assert(held_list(m, node, 0, next) =~= seq![read32(m, (node + 208) as u64)]);
}

/// One collection with one prototype whose family bucket holds one node
/// keyed to it: the UI collection list at `collections` has the node `coll`
/// at `+0x58`, whose item at `+8` has the prototype node `proto` at `+72`
/// and no next collection at `+0xF8`; the prototype node holds the id `p` at
/// `+12` and no next prototype at `+40`; bucket `p & 0x7FF` of the family map
/// at the skin manager's `+0x8E0` holds the node `fam`, keyed `p` at `+0`,
/// with its skin at `+4` and no next node at `+32`. The walk finds just that
/// skin.
pub proof fn law_skin_single_path(
    m: spec_fn(u64) -> u8,
    collections: u64,
    skin_manager: u64,
    coll: u64,
    proto: u64,
    fam: u64,
)
    requires
        is_user_ptr(collections),
        is_user_ptr(skin_manager),
        is_user_ptr(coll),
        is_user_ptr(proto),
        is_user_ptr(fam),
        read64(m, (collections + 0x58) as u64) == coll,
        read64(m, (coll + 8 + 72) as u64) == proto,
        !is_user_ptr(read64(m, (coll + 8 + 0xF8) as u64)),
        !is_user_ptr(read64(m, (proto + 40) as u64)),
        read64(m, (skin_manager + 0x8E0 + 8 * (read32(m, (proto + 12) as u64) & 0x7FF)) as u64) == fam,
        read32(m, fam) == read32(m, (proto + 12) as u64),
        !is_user_ptr(read64(m, (fam + 32) as u64)),
    ensures
        skin_raw(m, collections, skin_manager) == seq![read32(m, (fam + 4) as u64)],
{
    let p = read32(m, (proto + 12) as u64);
    law_family_bucket(skin_manager, p, p);
    reveal_with_fuel(family_ids, 2);
    reveal_with_fuel(prototype_ids, 2);
    reveal_with_fuel(collection_ids, 2);
    assert(family_ids(m, read64(m, (fam + 32) as u64), 1, p) =~= Seq::<u32>::empty());
    assert(family_ids(m, fam, 0, p) =~= seq![read32(m, (fam + 4) as u64)]);
    assert(prototype_ids(m, skin_manager, read64(m, (proto + 40) as u64), 1) =~= Seq::<u32>::empty());
    assert(prototype_ids(m, skin_manager, proto, 0) =~= seq![read32(m, (fam + 4) as u64)]);
    assert(collection_ids(m, skin_manager, read64(m, (((coll + 8) as u64) + 0xF8) as u64), 1)
        =~= Seq::<u32>::empty());
    assert(collection_ids(m, skin_manager, coll, 0) =~= seq![read32(m, (fam + 4) as u64)]);
}

#[derive(Clone, Copy, PartialEq, Eq, Structural)]
enum SkinPhase {
    CollHead,
    ProtoHead,
    NextColl,
    Prototype,
    Bucket,
    NextProto,
    Key,
    Id,
    NextFamily,
    Done,
}

/// A walk over the UI collection list and the skin manager's family map.
pub struct SkinWalk {
    phase: SkinPhase,
    collections: u64,
    skin_manager: u64,
    item: u64,
    g1: u32,
    proto: u64,
    g2: u32,
    prototype: u32,
    family: u64,
    g3: u32,
    ids: Vec<u32>,
    found: Ghost<Seq<u32>>,
}

/// Reads per family node at most: its key, its skin, its link.
pub open spec fn family_budget(g: nat) -> int {
    3 * (LIST_LIMIT - g)
}

/// Reads per prototype at most: its id, its bucket, its link, and
/// `family_budget(0)`.
pub open spec fn prototype_cost() -> int {
    12291
}

pub open spec fn prototype_budget(g: nat) -> int {
    prototype_cost() * (PROTOTYPE_LIMIT - g)
}

/// Reads per collection at most: its prototype list, its link, and
/// `prototype_budget(0)`.
pub open spec fn collection_cost() -> int {
    1573250
}

pub open spec fn collection_budget(g: nat) -> int {
    collection_cost() * (COLLECTION_LIMIT - g)
}

/// The read budgets add up: a prototype costs its own three reads and a
/// full family chain, a collection its own two reads and a full prototype
/// list.
pub proof fn lemma_budgets()
    ensures
        prototype_cost() == 3 + family_budget(0),
        collection_cost() == 2 + prototype_budget(0),
{
}

impl SkinWalk {
    /// The skin ids read so far, each time it was read.
    pub closed spec fn found(&self) -> Seq<u32> {
        self.found@
    }

    /// The read the walk needs next, if any.
    pub closed spec fn pending(&self) -> Option<Read> {
        match self.phase {
            SkinPhase::CollHead => Some(Read::Qword((self.collections + 0x58) as u64)),
            SkinPhase::ProtoHead => Some(Read::Qword((self.item + 72) as u64)),
            SkinPhase::NextColl => Some(Read::Qword((self.item + 0xF8) as u64)),
            SkinPhase::Prototype => Some(Read::Dword((self.proto + 12) as u64)),
            SkinPhase::Bucket => Some(Read::Qword(bucket(self.skin_manager, self.prototype))),
            SkinPhase::NextProto => Some(Read::Qword((self.proto + 40) as u64)),
            SkinPhase::Key => Some(Read::Dword(self.family)),
            SkinPhase::Id => Some(Read::Dword((self.family + 4) as u64)),
            SkinPhase::NextFamily => Some(Read::Qword((self.family + 32) as u64)),
            SkinPhase::Done => None,
        }
    }

    closed spec fn coll_tail(&self, m: spec_fn(u64) -> u8) -> Seq<u32> {
        collection_ids(m, self.skin_manager, read64(m, (self.item + 0xF8) as u64), self.g1 as nat)
    }

    closed spec fn proto_tail(&self, m: spec_fn(u64) -> u8) -> Seq<u32> {
        prototype_ids(m, self.skin_manager, read64(m, (self.proto + 40) as u64), self.g2 as nat)
            + self.coll_tail(m)
    }

    closed spec fn family_tail(&self, m: spec_fn(u64) -> u8) -> Seq<u32> {
        family_ids(m, read64(m, (self.family + 32) as u64), self.g3 as nat, self.prototype)
            + self.proto_tail(m)
    }

    /// The skin ids the walk will still read, from memory `m`.
    pub closed spec fn rest(&self, m: spec_fn(u64) -> u8) -> Seq<u32> {
        match self.phase {
            SkinPhase::CollHead => collection_ids(
                m,
                self.skin_manager,
                read64(m, (self.collections + 0x58) as u64),
                0,
            ),
            SkinPhase::ProtoHead => prototype_ids(
                m,
                self.skin_manager,
                read64(m, (self.item + 72) as u64),
                0,
            ) + self.coll_tail(m),
            SkinPhase::NextColl => self.coll_tail(m),
            SkinPhase::Prototype => {
                let p = read32(m, (self.proto + 12) as u64);
                family_ids(m, read64(m, bucket(self.skin_manager, p)), 0, p) + self.proto_tail(m)
            },
            SkinPhase::Bucket => family_ids(
                m,
                read64(m, bucket(self.skin_manager, self.prototype)),
                0,
                self.prototype,
            ) + self.proto_tail(m),
            SkinPhase::NextProto => self.proto_tail(m),
            SkinPhase::Key => (if read32(m, self.family) == self.prototype {
                seq![read32(m, (self.family + 4) as u64)]
            } else {
                seq![]
            }) + self.family_tail(m),
            SkinPhase::Id => seq![read32(m, (self.family + 4) as u64)] + self.family_tail(m),
            SkinPhase::NextFamily => self.family_tail(m),
            SkinPhase::Done => seq![],
        }
    }

    /// An upper bound on the reads the walk still needs.
    pub closed spec fn steps_left(&self) -> nat {
        let colls = collection_budget(self.g1 as nat);
        let protos = 1 + prototype_budget(self.g2 as nat) + 1 + colls;
        let fams = family_budget(self.g3 as nat) + protos;
        (match self.phase {
            SkinPhase::CollHead => 1 + collection_budget(0),
            SkinPhase::ProtoHead => 1 + prototype_budget(0) + 1 + colls,
            SkinPhase::NextColl => 1 + colls,
            SkinPhase::Prototype => 2 + family_budget(0) + protos,
            SkinPhase::Bucket => 1 + family_budget(0) + protos,
            SkinPhase::NextProto => protos,
            SkinPhase::Key => 3 + fams,
            SkinPhase::Id => 2 + fams,
            SkinPhase::NextFamily => 1 + fams,
            SkinPhase::Done => 0,
        }) as nat
    }

    pub closed spec fn wf(&self) -> bool {
        &&& self.g1 <= COLLECTION_LIMIT
        &&& self.g2 <= PROTOTYPE_LIMIT
        &&& self.g3 <= LIST_LIMIT
        &&& self.phase == SkinPhase::CollHead ==> is_user_ptr(self.collections) && self.g1 == 0
        &&& self.phase != SkinPhase::Done ==> is_user_ptr(self.skin_manager)
        &&& (self.phase != SkinPhase::CollHead && self.phase != SkinPhase::Done) ==> self.item
            < 0x1_0000_0000_0000
        &&& (self.phase == SkinPhase::Prototype || self.phase == SkinPhase::Bucket || self.phase
            == SkinPhase::NextProto || self.phase == SkinPhase::Key || self.phase == SkinPhase::Id
            || self.phase == SkinPhase::NextFamily) ==> is_user_ptr(self.proto)
        &&& (self.phase == SkinPhase::Key || self.phase == SkinPhase::Id || self.phase
            == SkinPhase::NextFamily) ==> is_user_ptr(self.family)
        &&& self.ids@ == unique_nonzero(self.found@)
    }

    /// A walk from the UI collection list at `collections` through the skin
    /// manager at `skin_manager`.
    pub fn new(collections: u64, skin_manager: u64) -> (w: SkinWalk)
        ensures
            w.wf(),
            w.found() == Seq::<u32>::empty(),
            forall|m: spec_fn(u64) -> u8| #[trigger] w.rest(m) == skin_raw(m, collections, skin_manager),
            w.steps_left() <= 1 + collection_budget(0),
    {
        let phase = if user_ptr(collections) && user_ptr(skin_manager) {
            SkinPhase::CollHead
        } else {
            SkinPhase::Done
        };
        let w = SkinWalk {
            phase,
            collections,
            skin_manager,
            item: 0,
            g1: 0,
            proto: 0,
            g2: 0,
            prototype: 0,
            family: 0,
            g3: 0,
            ids: Vec::new(),
            found: Ghost(Seq::empty()),
        };
        assert(w.ids@ =~= unique_nonzero(w.found@));
        w
    }

    /// The read the walk needs next; none once it is done.
    pub fn next(&self) -> (r: Option<Read>)
        requires
            self.wf(),
        ensures
            r == self.pending(),
    {
        match self.phase {
            SkinPhase::CollHead => Some(Read::Qword(self.collections + 0x58)),
            SkinPhase::ProtoHead => Some(Read::Qword(self.item + 72)),
            SkinPhase::NextColl => Some(Read::Qword(self.item + 0xF8)),
            SkinPhase::Prototype => Some(Read::Dword(self.proto + 12)),
            SkinPhase::Bucket => Some(
                Read::Qword(
                    self.skin_manager + FAMILY_MAP + 8 * ((self.prototype % FAMILY_BUCKETS) as u64),
                ),
            ),
            SkinPhase::NextProto => Some(Read::Qword(self.proto + 40)),
            SkinPhase::Key => Some(Read::Dword(self.family)),
            SkinPhase::Id => Some(Read::Dword(self.family + 4)),
            SkinPhase::NextFamily => Some(Read::Qword(self.family + 32)),
            SkinPhase::Done => None,
        }
    }

    fn enter_collection(&mut self, node: u64)
        requires
            old(self).wf(),
            old(self).phase == SkinPhase::CollHead || old(self).phase == SkinPhase::NextColl,
        ensures
            final(self).wf(),
            final(self).found() == old(self).found(),
            final(self).steps_left() < old(self).steps_left(),
            forall|m: spec_fn(u64) -> u8| #[trigger]
                final(self).rest(m) == collection_ids(
                    m,
                    old(self).skin_manager,
                    node,
                    if old(self).phase == SkinPhase::CollHead {
                        0
                    } else {
                        old(self).g1 as nat
                    },
                ),
    {
        let ghost g = if self.phase == SkinPhase::CollHead {
            0
        } else {
            self.g1 as nat
        };
        if user_ptr(node) && self.g1 < COLLECTION_LIMIT {
            self.g1 = self.g1 + 1;
            self.item = node + 8;
            self.phase = SkinPhase::ProtoHead;
        } else {
            self.phase = SkinPhase::Done;
        }
        assert forall|m: spec_fn(u64) -> u8| #[trigger]
            self.rest(m) == collection_ids(m, self.skin_manager, node, g) by {
            if !(is_user_ptr(node) && g < COLLECTION_LIMIT) {
                assert(collection_ids(m, self.skin_manager, node, g) =~= Seq::<u32>::empty());
            }
        }
    }

    fn enter_prototype(&mut self, node: u64)
        requires
            old(self).wf(),
            old(self).phase == SkinPhase::ProtoHead || old(self).phase == SkinPhase::NextProto,
        ensures
            final(self).wf(),
            final(self).found() == old(self).found(),
            final(self).steps_left() < old(self).steps_left(),
            forall|m: spec_fn(u64) -> u8| #[trigger]
                final(self).rest(m) == prototype_ids(
                    m,
                    old(self).skin_manager,
                    node,
                    if old(self).phase == SkinPhase::ProtoHead {
                        0
                    } else {
                        old(self).g2 as nat
                    },
                ) + old(self).coll_tail(m),
    {
        let ghost before = *self;
        if self.phase == SkinPhase::ProtoHead {
            self.g2 = 0;
        }
        let ghost g = self.g2 as nat;
        if user_ptr(node) && self.g2 < PROTOTYPE_LIMIT {
            self.g2 = self.g2 + 1;
            self.proto = node;
            self.phase = SkinPhase::Prototype;
        } else {
            self.phase = SkinPhase::NextColl;
        }
        assert forall|m: spec_fn(u64) -> u8| #[trigger]
            self.rest(m) == prototype_ids(m, before.skin_manager, node, g) + before.coll_tail(m) by {
            assert(self.coll_tail(m) == before.coll_tail(m));
            if !(is_user_ptr(node) && g < PROTOTYPE_LIMIT) {
                assert(prototype_ids(m, self.skin_manager, node, g) =~= Seq::<u32>::empty());
                assert(self.rest(m) =~= prototype_ids(m, before.skin_manager, node, g) + before.coll_tail(
                    m,
                ));
            } else {
                assert(self.rest(m) =~= prototype_ids(m, before.skin_manager, node, g) + before.coll_tail(
                    m,
                ));
            }
        }
    }

    fn enter_family(&mut self, node: u64)
        requires
            old(self).wf(),
            old(self).phase == SkinPhase::Bucket || old(self).phase == SkinPhase::NextFamily,
        ensures
            final(self).wf(),
            final(self).found() == old(self).found(),
            final(self).steps_left() < old(self).steps_left(),
            forall|m: spec_fn(u64) -> u8| #[trigger]
                final(self).rest(m) == family_ids(
                    m,
                    node,
                    if old(self).phase == SkinPhase::Bucket {
                        0
                    } else {
                        old(self).g3 as nat
                    },
                    old(self).prototype,
                ) + old(self).proto_tail(m),
    {
        let ghost before = *self;
        if self.phase == SkinPhase::Bucket {
            self.g3 = 0;
        }
        let ghost g = self.g3 as nat;
        if user_ptr(node) && self.g3 < LIST_LIMIT {
            self.g3 = self.g3 + 1;
            self.family = node;
            self.phase = SkinPhase::Key;
        } else {
            self.phase = SkinPhase::NextProto;
        }
        assert forall|m: spec_fn(u64) -> u8| #[trigger]
            self.rest(m) == family_ids(m, node, g, before.prototype) + before.proto_tail(m) by {
            assert(self.proto_tail(m) == before.proto_tail(m));
            if !(is_user_ptr(node) && g < LIST_LIMIT) {
                assert(family_ids(m, node, g, before.prototype) =~= Seq::<u32>::empty());
                assert(self.rest(m) =~= family_ids(m, node, g, before.prototype) + before.proto_tail(m));
            } else {
                assert(self.rest(m) =~= family_ids(m, node, g, before.prototype) + before.proto_tail(m));
            }
        }
    }

    /// Feeds the value of the pending read (a 32-bit read widened).
    pub fn feed(&mut self, value: u64)
        requires
            old(self).wf(),
            old(self).pending() is Some,
        ensures
            final(self).wf(),
            final(self).steps_left() < old(self).steps_left(),
            forall|m: spec_fn(u64) -> u8|
                answer(m, old(self).pending()->0) == value ==> final(self).found()
                    + #[trigger] final(self).rest(m) == old(self).found() + old(self).rest(m),
    {
        let ghost before = *self;
        match self.phase {
            SkinPhase::CollHead => {
                self.enter_collection(value);
            },
            SkinPhase::NextColl => {
                self.enter_collection(value);
            },
            SkinPhase::ProtoHead => {
                self.enter_prototype(value);
            },
            SkinPhase::NextProto => {
                self.enter_prototype(value);
            },
            SkinPhase::Bucket => {
                self.enter_family(value);
            },
            SkinPhase::NextFamily => {
                self.enter_family(value);
            },
            SkinPhase::Prototype => {
                self.prototype = value as u32;
                self.phase = SkinPhase::Bucket;
            },
            SkinPhase::Key => {
                if value as u32 == self.prototype {
                    self.phase = SkinPhase::Id;
                } else {
                    self.phase = SkinPhase::NextFamily;
                }
            },
            SkinPhase::Id => {
                let id = value as u32;
                self.found = Ghost(self.found@.push(id));
                if id != 0 && !contains(&self.ids, id) {
                    self.ids.push(id);
                }
                self.phase = SkinPhase::NextFamily;
                assert(self.found@.drop_last() =~= before.found@);
            },
            SkinPhase::Done => {},
        }
        assert forall|m: spec_fn(u64) -> u8|
            answer(m, before.pending()->0) == value implies self.found() + #[trigger] self.rest(m)
            == before.found() + before.rest(m) by {
            match before.phase {
                SkinPhase::Id => {
                    assert(self.found() + self.rest(m) =~= before.found() + before.rest(m));
                },
                SkinPhase::Key => {
                    assert(self.rest(m) =~= before.rest(m));
                },
                _ => {
                    assert(self.rest(m) =~= before.rest(m));
                },
            }
        }
    }

    /// The distinct skin ids other than 0 read, in first-read order.
    pub fn ids(&self) -> (r: Vec<u32>)
        requires
            self.wf(),
        ensures
            r@ == unique_nonzero(self.found()),
    {
        self.ids.clone()
    }

    /// A walk with no read pending has nothing more to read.
    pub proof fn lemma_done(&self, m: spec_fn(u64) -> u8)
        requires
            self.wf(),
            self.pending() is None,
        ensures
            self.rest(m) == Seq::<u32>::empty(),
    {
    }
}

/// A finished walk over the collections has read every skin id the
/// collection list reaches, and reports each one other than 0 once, in the
/// order first read.
pub proof fn law_skin_walk_complete(w: SkinWalk, m: spec_fn(u64) -> u8, collections: u64, skin_manager: u64)
    requires
        w.wf(),
        w.found() + w.rest(m) == skin_raw(m, collections, skin_manager),
        w.pending() is None,
    ensures
        unique_nonzero(w.found()) == unique_nonzero(skin_raw(m, collections, skin_manager)),
{
    w.lemma_done(m);
    assert(w.found() =~= w.found() + w.rest(m));
}

} // verus!
