use unlock_all::skins::{accepts, definition_for, entry_item, preview_target, PreviewTarget};
use unlock_all::store::init;

#[test]
fn lookups_follow_the_choices() {
    let st = init(Some("100=200=300\n101=201=0\n102=202=102\n"));
    assert_eq!(definition_for(&st, 100), 300);
    assert_eq!(definition_for(&st, 101), 101);
    assert_eq!(definition_for(&st, 102), 102);
    assert_eq!(definition_for(&st, 5), 5);
    assert_eq!(entry_item(&st, 100, 7), 200);
    assert_eq!(entry_item(&st, 5, 7), 7);
}

#[test]
fn choices_need_a_prototype_and_a_skin() {
    assert!(accepts(1, 2));
    assert!(!accepts(0, 2));
    assert!(!accepts(1, 0));
}

#[test]
fn preview_targets() {
    assert!(matches!(preview_target(4, 1, 2), PreviewTarget::CratePreview));
    assert!(matches!(preview_target(1, 0, 2), PreviewTarget::NoTarget));
    assert!(matches!(preview_target(1, 1, 0), PreviewTarget::NoTarget));
    assert!(matches!(preview_target(1, 5, 6), PreviewTarget::Apply { collection: 5, prototype: 6 }));
}


use unlock_all::skins::{Apply, ApplyContext, ApplyStep, Refresh};

const CONTEXT: ApplyContext = ApplyContext {
    manager: 0x10_0000,
    collection: 7,
    prototype: 100,
    skin: 200,
    client_slot: 0x9000,
    version_slot: 0x9100,
};

/// Runs an apply, answering each step from `events` in turn.
fn run(context: ApplyContext, events: &[u64]) -> (Vec<ApplyStep>, bool) {
    let mut a = Apply::new(context);
    let mut steps = Vec::new();
    let mut k = 0;
    loop {
        let step = a.step();
        if let ApplyStep::Finish(applied) = step {
            return (steps, applied);
        }
        steps.push(step);
        a.feed(events[k]);
        k += 1;
    }
}

#[test]
fn apply_runs_the_handler_sequence() {
    let client = 0x20_0000u64; // a user-mode pointer: its zone state is read
    let events = [
        0x30_0000, // record
        300,       // output
        0,         // persisted
        client,    // client
        4,         // zone state: in a zone
        1,         // insert accepted
        0x40,      // first refresher object
        0,         // refreshed
        7,         // editor collection: this one
        0x50,      // current refresher object
        0,         // refreshed
        0x60,      // character refresher object
        5,         // client version
        6,         // manager version: newer
        0,         // refreshed
        0,         // prototype recorded
    ];
    let (steps, applied) = run(CONTEXT, &events);
    assert!(applied);
    assert!(
        steps
            == vec![
                ApplyStep::FindRecord,
                ApplyStep::Read32(0x30_0010),
                ApplyStep::Persist { output: 300 },
                ApplyStep::Read64(0x9000),
                ApplyStep::Read32(client + 0x389DC),
                ApplyStep::Insert { in_zone: true },
                ApplyStep::Read64(0x10_0000 + 360),
                ApplyStep::Refresh(Refresh::First(0x40)),
                ApplyStep::Read32(0x10_0000 + 280),
                ApplyStep::Read64(0x10_0000 + 368),
                ApplyStep::Refresh(Refresh::Current(0x50)),
                ApplyStep::Read64(0x10_0000 + 408),
                ApplyStep::Read32(0x9100),
                ApplyStep::Read32(0x10_0000 + 288),
                ApplyStep::Refresh(Refresh::CharacterNewer(0x60)),
                ApplyStep::RecordPrototype,
            ]
    );
}

#[test]
fn apply_skips_absent_refreshers() {
    let events = [0x30_0000, 300, 0, 0, 1, 0, 8, 0x60, 6, 6, 0, 0];
    let (steps, applied) = run(CONTEXT, &events);
    assert!(applied);
    assert!(
        steps
            == vec![
                ApplyStep::FindRecord,
                ApplyStep::Read32(0x30_0010),
                ApplyStep::Persist { output: 300 },
                ApplyStep::Read64(0x9000),
                ApplyStep::Insert { in_zone: false },
                ApplyStep::Read64(0x10_0000 + 360),
                ApplyStep::Read32(0x10_0000 + 280),
                ApplyStep::Read64(0x10_0000 + 408),
                ApplyStep::Read32(0x9100),
                ApplyStep::Read32(0x10_0000 + 288),
                ApplyStep::Refresh(Refresh::Character(0x60)),
                ApplyStep::RecordPrototype,
            ]
    );
}

#[test]
fn apply_stops_early() {
    assert!(run(ApplyContext { skin: 0, ..CONTEXT }, &[]) == (vec![], false));
    assert!(run(CONTEXT, &[0]) == (vec![ApplyStep::FindRecord], false));
    let (steps, applied) = run(CONTEXT, &[0x30_0000, 300, 0, 0, 0]);
    assert!(!applied);
    assert!(steps.last() == Some(&ApplyStep::Insert { in_zone: false }));
}
