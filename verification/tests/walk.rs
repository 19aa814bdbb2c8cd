use std::collections::HashMap;

use unlock_all::walk::{HeldWalk, Read, SkinWalk};

#[derive(Default)]
struct Mem(HashMap<u64, u8>);

impl Mem {
    fn w64(&mut self, a: u64, v: u64) {
        for (k, b) in v.to_le_bytes().iter().enumerate() {
            self.0.insert(a + k as u64, *b);
        }
    }
    fn w32(&mut self, a: u64, v: u32) {
        for (k, b) in v.to_le_bytes().iter().enumerate() {
            self.0.insert(a + k as u64, *b);
        }
    }
    fn r64(&self, a: u64) -> u64 {
        let mut b = [0u8; 8];
        for (k, x) in b.iter_mut().enumerate() {
            *x = *self.0.get(&(a + k as u64)).unwrap_or(&0);
        }
        u64::from_le_bytes(b)
    }
    fn r32(&self, a: u64) -> u32 {
        let mut b = [0u8; 4];
        for (k, x) in b.iter_mut().enumerate() {
            *x = *self.0.get(&(a + k as u64)).unwrap_or(&0);
        }
        u32::from_le_bytes(b)
    }
    fn answer(&self, r: Read) -> u64 {
        match r {
            Read::Qword(a) => self.r64(a),
            Read::Dword(a) => self.r32(a) as u64,
        }
    }
}

fn user(p: u64) -> bool {
    (0x10000..0x7FFF_FFFF_FFFF).contains(&p)
}

fn held(mem: &Mem, manager: u64) -> (Vec<u32>, usize) {
    let mut w = HeldWalk::new(manager);
    let mut reads = 0;
    while let Some(r) = w.next() {
        w.feed(mem.answer(r));
        reads += 1;
    }
    (w.ids(), reads)
}

fn skins(mem: &Mem, collections: u64, skin_manager: u64) -> Vec<u32> {
    let mut w = SkinWalk::new(collections, skin_manager);
    while let Some(r) = w.next() {
        w.feed(mem.answer(r));
    }
    w.ids()
}

/// The traversal the walks stand for, written as plain loops.
fn skins_by_loops(mem: &Mem, collections: u64, skin_manager: u64) -> Vec<u32> {
    let mut ids = Vec::new();
    if !user(collections) || !user(skin_manager) {
        return ids;
    }
    let mut node = mem.r64(collections + 0x58);
    let mut guard = 0;
    while user(node) && guard < 64 {
        guard += 1;
        let item = node + 8;
        let mut pnode = mem.r64(item + 72);
        let mut guard2 = 0;
        while user(pnode) && guard2 < 128 {
            guard2 += 1;
            let prototype = mem.r32(pnode + 12);
            let mut fnode = mem.r64(skin_manager + 0x8E0 + 8 * (prototype as u64 & 0x7FF));
            let mut guard3 = 0;
            while user(fnode) && guard3 < 4096 {
                guard3 += 1;
                if mem.r32(fnode) == prototype {
                    let id = mem.r32(fnode + 4);
                    if id != 0 && !ids.contains(&id) {
                        ids.push(id);
                    }
                }
                fnode = mem.r64(fnode + 32);
            }
            pnode = mem.r64(pnode + 40);
        }
        node = mem.r64(item + 0xF8);
    }
    ids
}

#[test]
fn held_walk_reads_both_lists() {
    let mut mem = Mem::default();
    let manager = 0x10_0000;
    mem.w64(manager + 24, 0x20_0000);
    mem.w32(0x20_0000 + 8 + 200, 11);
    mem.w64(0x20_0000 + 8 + 216, 0x21_0000);
    mem.w32(0x21_0000 + 8 + 200, 12);
    mem.w64(manager + 1192, 0x22_0000);
    mem.w32(0x22_0000 + 8 + 200, 11);
    mem.w64(0x22_0000 + 8 + 280, 0x23_0000);
    mem.w32(0x23_0000 + 8 + 200, 0);
    let (ids, reads) = held(&mem, manager);
    assert_eq!(ids, vec![11, 12, 0]);
    assert_eq!(reads, 2 + 2 * 4);
}

#[test]
fn held_walk_stops_at_the_guard() {
    let mut mem = Mem::default();
    let manager = 0x10_0000;
    mem.w64(manager + 24, 0x20_0000);
    mem.w32(0x20_0000 + 8 + 200, 5);
    mem.w64(0x20_0000 + 8 + 216, 0x20_0000);
    let (ids, reads) = held(&mem, manager);
    assert_eq!(ids, vec![5]);
    assert_eq!(reads, 1 + 2 * 4096 + 1);
}

#[test]
fn held_walk_of_an_empty_manager() {
    let mem = Mem::default();
    assert_eq!(held(&mem, 0x10_0000), (vec![], 2));
}

fn skin_memory() -> (Mem, u64, u64) {
    let mut mem = Mem::default();
    let collections = 0x30_0000;
    let sm = 0x40_0000;
    let n1 = 0x31_0000;
    mem.w64(collections + 0x58, n1);
    let item = n1 + 8;
    let p1 = 0x32_0000;
    let p2 = 0x33_0000;
    mem.w64(item + 72, p1);
    mem.w32(p1 + 12, 500);
    mem.w64(p1 + 40, p2);
    mem.w32(p2 + 12, 2548); // same bucket as 500
    let bucket = |p: u64| sm + 0x8E0 + 8 * (p % 2048);
    let f = [0x50_0000u64, 0x51_0000, 0x52_0000, 0x53_0000, 0x54_0000];
    mem.w64(bucket(500), f[0]);
    mem.w32(f[0], 500);
    mem.w32(f[0] + 4, 900);
    mem.w64(f[0] + 32, f[1]);
    mem.w32(f[1], 2548);
    mem.w32(f[1] + 4, 901);
    mem.w64(f[1] + 32, f[2]);
    mem.w32(f[2], 500);
    mem.w32(f[2] + 4, 0);
    mem.w64(f[2] + 32, f[3]);
    mem.w32(f[3], 500);
    mem.w32(f[3] + 4, 900);
    mem.w64(f[3] + 32, f[4]);
    mem.w32(f[4], 777);
    mem.w32(f[4] + 4, 902);
    // a second collection that links back to the first
    let n2 = 0x34_0000;
    mem.w64(item + 0xF8, n2);
    mem.w64(n2 + 8 + 72, p2);
    mem.w64(n2 + 8 + 0xF8, n1);
    (mem, collections, sm)
}

#[test]
fn skin_walk_lists_each_family_skin_once() {
    let (mem, collections, sm) = skin_memory();
    assert_eq!(skins(&mem, collections, sm), vec![900, 901]);
    assert_eq!(skins(&mem, collections, sm), skins_by_loops(&mem, collections, sm));
}

#[test]
fn skin_walk_needs_both_objects() {
    let (mem, collections, sm) = skin_memory();
    assert_eq!(skins(&mem, 0, sm), Vec::<u32>::new());
    assert_eq!(skins(&mem, collections, 0x100), Vec::<u32>::new());
}
