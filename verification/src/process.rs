//! Process-level rules: addresses in the game image, pointer sanity, and the
//! byte checks that guard every hook site and patch.
use vstd::prelude::*;

use crate::text::{byte_list, hex, push_byte_list, push_hex, push_str};

verus! {

/// A hook site: the first bytes the supported build has at an image RVA.
pub struct Site {
    pub name: &'static str,
    pub rva: usize,
    pub head: &'static [u8],
}

/// A patch: the bytes the supported build has at an RVA, and what replaces
/// them.
pub struct Patch {
    pub name: &'static str,
    pub rva: usize,
    pub original: &'static [u8],
    pub patched: &'static [u8],
}

/// A plausible user-mode heap or image pointer.
pub open spec fn is_user_ptr(p: u64) -> bool {
    0x10000 <= p < 0x7FFF_FFFF_FFFF
}

/// True for a plausible user-mode heap or image pointer.
pub fn user_ptr(p: u64) -> (r: bool)
    ensures
        r == is_user_ptr(p),
{
    0x10000 <= p && p < 0x7FFF_FFFF_FFFF
}

/// How many times startup looks for the item definition provider, a tenth
/// of a second apart, before it installs the hooks anyway.
pub const PROVIDER_TRIES: u32 = 600;

/// Startup keeps waiting for the definition provider while it has looked
/// fewer than `PROVIDER_TRIES` times and the provider pointer is not yet
/// plausible.
pub fn keeps_waiting(tries: u32, provider: u64) -> (r: bool)
    ensures
        r == (tries < PROVIDER_TRIES && !is_user_ptr(provider)),
{
    tries < PROVIDER_TRIES && !user_ptr(provider)
}

/// Virtual address of an image RVA, for an image loaded at `base`.
pub fn va(base: usize, rva: usize) -> (r: usize)
    requires
        base + rva <= usize::MAX,
    ensures
        r == base + rva,
{
    base + rva
}

/// The size of the window above the image base that code addresses are
/// accepted in.
pub const IMAGE_SPAN: usize = 0x800_0000;

/// Whether `target` lies in the image that starts at `base`: in
/// `base..base + IMAGE_SPAN`.
pub fn in_image(base: usize, target: usize) -> (r: bool)
    ensures
        r == (base <= target && target < base + IMAGE_SPAN),
{
    base <= target && target - base < IMAGE_SPAN
}

/// The bytes found at a hook site, when they differ from the supported
/// build's.
pub fn mismatch(site: &Site, got: &[u8]) -> (r: Option<Vec<u8>>)
    ensures
        r is None <==> got@ == site.head@,
        r matches Some(v) ==> v@ == got@,
{
    if same_bytes(got, site.head) {
        None
    } else {
        Some(vstd::slice::slice_to_vec(got))
    }
}

fn same_bytes(a: &[u8], b: &[u8]) -> (r: bool)
    ensures
        r == (a@ == b@),
{
    if a.len() != b.len() {
        return false;
    }
    let mut i: usize = 0;
    while i < a.len()
        invariant
            i <= a.len(),
            a.len() == b.len(),
            forall|k: int| 0 <= k < i ==> a@[k] == b@[k],
        decreases a.len() - i,
    {
        if a[i] != b[i] {
            return false;
        }
        i = i + 1;
    }
    assert(a@ =~= b@);
    true
}

/// The report for bytes that differ from the supported build's:
/// `{name}: bytes at {rva:#x} are {got:02X?}, expected {expected:02X?}`.
pub open spec fn mismatch_text(name: Seq<char>, rva: usize, got: Seq<u8>, expected: Seq<u8>) -> Seq<
    char,
> {
    name + ": bytes at 0x"@ + hex(rva as nat) + " are "@ + byte_list(got) + ", expected "@
        + byte_list(expected)
}

fn mismatch_message(name: &str, rva: usize, got: &[u8], expected: &[u8]) -> (r: String)
    ensures
        r@ == mismatch_text(name@, rva, got@, expected@),
{
    let mut out = String::new();
    push_str(&mut out, name);
    push_str(&mut out, ": bytes at 0x");
    push_hex(&mut out, rva as u64);
    push_str(&mut out, " are ");
    push_byte_list(&mut out, got);
    push_str(&mut out, ", expected ");
    push_byte_list(&mut out, expected);
    out
}

/// Why a hook site is refused: the bytes found there against the supported
/// build's.
pub fn site_error(site: &Site, got: &[u8]) -> (r: String)
    ensures
        r@ == mismatch_text(site.name@, site.rva, got@, site.head@),
{
    mismatch_message(site.name, site.rva, got, site.head)
}

/// What applying a patch takes, given the bytes now at its site.
pub enum PatchStep {
    /// Nothing: the patched bytes are there already.
    Applied,
    /// Write the patched bytes over the original ones.
    Write,
    /// Refuse: the site holds other bytes; the report says which.
    Refused(String),
}

/// The step a patch takes over the bytes `current` at its site: none when the
/// patched bytes are there, a write over the original ones, else a refusal
/// that names the bytes found.
pub open spec fn steps_to(patch: Patch, current: Seq<u8>, r: PatchStep) -> bool {
    if current == patch.patched@ {
        r is Applied
    } else if current == patch.original@ {
        r is Write
    } else {
        r matches PatchStep::Refused(m) && m@ == mismatch_text(
            patch.name@,
            patch.rva,
            current,
            patch.original@,
        )
    }
}

/// The bytes at a patch's site once `step` is carried out over `current`: a
/// write puts the first `original.len()` patched bytes there; the other steps
/// leave the site as it was.
pub open spec fn site_after(patch: Patch, current: Seq<u8>, step: PatchStep) -> Seq<u8> {
    if step is Write {
        patch.patched@.take(patch.original@.len() as int)
    } else {
        current
    }
}

/// The step a patch takes over the bytes `current` at its site.
pub fn patch_step(patch: &Patch, current: &[u8]) -> (r: PatchStep)
    ensures
        steps_to(*patch, current@, r),
{
    if same_bytes(current, patch.patched) {
        PatchStep::Applied
    } else if same_bytes(current, patch.original) {
        PatchStep::Write
    } else {
        PatchStep::Refused(mismatch_message(patch.name, patch.rva, current, patch.original))
    }
}

/// Applying a patch again after it was applied without refusal changes
/// nothing: the second step finds the patched bytes and is `Applied`, so the
/// site keeps them.
pub proof fn law_patch_again(patch: Patch, current: Seq<u8>, first: PatchStep, second: PatchStep)
    requires
        patch.patched@.len() == patch.original@.len(),
        steps_to(patch, current, first),
        !(first is Refused),
        steps_to(patch, site_after(patch, current, first), second),
    ensures
        second is Applied,
        site_after(patch, site_after(patch, current, first), second) == site_after(
            patch,
            current,
            first,
        ),
        site_after(patch, current, first) == patch.patched@,
{
    assert(patch.patched@.take(patch.original@.len() as int) =~= patch.patched@);
}

/// The first hook site whose bytes differ from the supported build's, given
/// the bytes found at each site in order; `None` when every site holds its
/// expected bytes.
pub fn moved_site(sites: &[Site], found: &Vec<Vec<u8>>) -> (r: Option<usize>)
    requires
        found.len() == sites.len(),
    ensures
        match r {
            Some(i) => i < sites.len() && found@[i as int]@ != sites@[i as int].head@ && forall|
                k: int,
            | 0 <= k < i ==> found@[k]@ == sites@[k].head@,
            None => forall|k: int| 0 <= k < sites.len() ==> found@[k]@ == sites@[k].head@,
        },
{
    let mut i: usize = 0;
    while i < sites.len()
        invariant
            i <= sites.len(),
            found.len() == sites.len(),
            forall|k: int| 0 <= k < i ==> found@[k]@ == sites@[k].head@,
        decreases sites.len() - i,
    {
        if !same_bytes(found[i].as_slice(), sites[i].head) {
            return Some(i);
        }
        i = i + 1;
    }
    None
}

} // verus!
