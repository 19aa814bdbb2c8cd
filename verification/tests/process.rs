use unlock_all::process::{
    in_image, keeps_waiting, mismatch, moved_site, patch_step, site_error, user_ptr, va, Patch, PatchStep, Site,
};

const SITE: Site = Site { name: "IsOwned", rva: 0x1129D80, head: &[0x48, 0x89, 0x5C] };
const PATCH: Patch = Patch { name: "Draw", rva: 0x10, original: &[0x74, 0x05], patched: &[0xEB, 0x05] };

#[test]
fn user_pointers() {
    assert!(!user_ptr(0));
    assert!(!user_ptr(0xFFFF));
    assert!(user_ptr(0x10000));
    assert!(user_ptr(0x7FFF_FFFF_FFFE));
    assert!(!user_ptr(0x7FFF_FFFF_FFFF));
}

#[test]
fn addresses() {
    assert_eq!(va(0x1_4000_0000, 0x1129D80), 0x1_4112_9D80);
    assert!(in_image(0x1000, 0x1000));
    assert!(in_image(0x1000, 0x1000 + 0x7FF_FFFF));
    assert!(!in_image(0x1000, 0x1000 + 0x800_0000));
    assert!(!in_image(0x1000, 0xFFF));
}

#[test]
fn site_bytes() {
    assert_eq!(mismatch(&SITE, &[0x48, 0x89, 0x5C]), None);
    assert_eq!(mismatch(&SITE, &[0x48, 0x89, 0x5D]), Some(vec![0x48, 0x89, 0x5D]));
    assert_eq!(site_error(&SITE, &[0xCC, 0x0A, 0x5C]), "IsOwned: bytes at 0x1129d80 are [CC, 0A, 5C], expected [48, 89, 5C]");
    assert_eq!(
        site_error(&SITE, &[0xCC, 0x0A, 0x5C]),
        format!("{}: bytes at {:#x} are {:02X?}, expected {:02X?}", SITE.name, SITE.rva, [0xCCu8, 0x0A, 0x5C], SITE.head)
    );
}

#[test]
fn patch_steps() {
    assert!(matches!(patch_step(&PATCH, &[0xEB, 0x05]), PatchStep::Applied));
    assert!(matches!(patch_step(&PATCH, &[0x74, 0x05]), PatchStep::Write));
    match patch_step(&PATCH, &[0x90, 0x90]) {
        PatchStep::Refused(m) => assert_eq!(m, "Draw: bytes at 0x10 are [90, 90], expected [74, 05]"),
        _ => panic!("not refused"),
    }
}

#[test]
fn a_second_patch_finds_its_bytes() {
    let mut site = vec![0x74, 0x05];
    match patch_step(&PATCH, &site) {
        PatchStep::Write => site = PATCH.patched[..PATCH.original.len()].to_vec(),
        _ => panic!("not a write"),
    }
    assert!(matches!(patch_step(&PATCH, &site), PatchStep::Applied));
    assert_eq!(site, vec![0xEB, 0x05]);
}

const OTHER: Site = Site { name: "Other", rva: 0x20, head: &[0x40, 0x53] };

#[test]
fn every_site_is_checked_before_install() {
    let sites = [SITE, OTHER];
    assert_eq!(moved_site(&sites, &vec![vec![0x48, 0x89, 0x5C], vec![0x40, 0x53]]), None);
    assert_eq!(moved_site(&sites, &vec![vec![0x48, 0x89, 0x5C], vec![0x40, 0x54]]), Some(1));
    assert_eq!(moved_site(&sites, &vec![vec![0x48, 0x89, 0x5D], vec![0x40, 0x54]]), Some(0));
    assert_eq!(moved_site(&[], &vec![]), None);
}

#[test]
fn startup_waits_for_the_provider() {
    assert!(keeps_waiting(0, 0));
    assert!(keeps_waiting(599, 0xFFFF));
    assert!(!keeps_waiting(600, 0));
    assert!(!keeps_waiting(0, 0x10000));
}
