//! The cosmetics changer's decisions.
//!
//! The game renders an item from its definition id, and a skinned item is
//! another definition of the same family. A choice is therefore applied in
//! three places: the skin collection (written the way the server's
//! SetSkinItem packet writes it, followed by the same refreshers), the
//! definition lookup (a prototype with a choice resolves to the chosen
//! output definition) and the equipment packets (the local player's
//! attachments are left as the client built them). Choices persist in the
//! store and are applied again after every server rebuild of the collection.
use vstd::prelude::*;

use crate::process::{is_user_ptr, user_ptr};
use crate::store::{choice_for, output_for, Store};

verus! {

/// The definition a lookup of `id` resolves to: the chosen output for a
/// prototype with a choice that is not the default look, `id` otherwise.
pub fn definition_for(st: &Store, id: u32) -> (r: u32)
    requires
        st.wf(),
    ensures
        r == if st@.contains_key(id) && st@[id].1 != 0 && st@[id].1 != id {
            st@[id].1
        } else {
            id
        },
{
    match output_for(st, id) {
        Some(output) => output,
        None => id,
    }
}

/// The item a collection entry for `prototype` is stored with: the chosen
/// skin when the prototype has a choice, the entry's own item otherwise.
pub fn entry_item(st: &Store, prototype: u32, item: u32) -> (r: u32)
    requires
        st.wf(),
    ensures
        r == if st@.contains_key(prototype) {
            st@[prototype].0
        } else {
            item
        },
{
    match choice_for(st, prototype) {
        Some((skin, _)) => skin,
        None => item,
    }
}

/// A choice is applied only for a prototype and a skin other than 0.
pub fn accepts(prototype: u32, skin: u32) -> (r: bool)
    ensures
        r == (prototype != 0 && skin != 0),
{
    prototype != 0 && skin != 0
}

/// The client's zone state while in a zone.
pub const ZONE_STATE_IN_ZONE: u32 = 4;

/// The skin editor's mode while it previews a crate.
pub const EDITOR_MODE_CRATE_PREVIEW: u32 = 4;

/// What a click on the preview path applies.
pub enum PreviewTarget {
    /// Nothing: the editor previews a crate.
    CratePreview,
    /// Nothing: the editor has no collection or no prototype.
    NoTarget,
    /// The clicked item, to the editor's collection and prototype.
    Apply { collection: u32, prototype: u32 },
}

/// The target of a click on the preview path.
pub fn preview_target(mode: u32, collection: u32, prototype: u32) -> (r: PreviewTarget)
    ensures
        mode == EDITOR_MODE_CRATE_PREVIEW ==> r is CratePreview,
        mode != EDITOR_MODE_CRATE_PREVIEW && (collection == 0 || prototype == 0) ==> r is NoTarget,
        mode != EDITOR_MODE_CRATE_PREVIEW && collection != 0 && prototype != 0 ==> r
            == (PreviewTarget::Apply { collection, prototype }),
{
    if mode == EDITOR_MODE_CRATE_PREVIEW {
        PreviewTarget::CratePreview
    } else if collection == 0 || prototype == 0 {
        PreviewTarget::NoTarget
    } else {
        PreviewTarget::Apply { collection, prototype }
    }
}

// ---- the SetSkinItem sequence ------------------------------------------------------------

/// Where a skin's family record keeps its output item.
pub const RECORD_OUTPUT: u64 = 0x10;

/// Where the client object keeps its zone state.
pub const CLIENT_ZONE_STATE: u64 = 0x389DC;

/// The skin manager's fields the refreshers depend on.
pub const MGR_EDITOR_COLLECTION: u64 = 280;
pub const MGR_COLLECTION_VERSION: u64 = 288;
pub const MGR_REFRESH_FIRST: u64 = 360;
pub const MGR_REFRESH_CURRENT: u64 = 368;
pub const MGR_REFRESH_CHARACTER: u64 = 408;

/// A refresher the SetSkinItem handler runs after a collection change, with
/// the object it runs on.
#[derive(Clone, Copy, PartialEq, Eq, Structural)]
pub enum Refresh {
    /// The first refresher.
    First(u64),
    /// The current-collection refresher; it is handed the collection id too.
    Current(u64),
    /// The character refresher for a collection version the client has.
    Character(u64),
    /// The character refresher for a newer collection version.
    CharacterNewer(u64),
}

/// What applying a choice does next. The event fed back is the value read,
/// or the call's result, or 0 where there is none.
#[derive(Clone, Copy, PartialEq, Eq, Structural)]
pub enum ApplyStep {
    /// Look the skin's family record up; the event is the record, 0 for an
    /// item that is no skin.
    FindRecord,
    /// Read 32 bits at the address.
    Read32(u64),
    /// Read 64 bits at the address.
    Read64(u64),
    /// Persist the choice with this output item.
    Persist { output: u32 },
    /// Insert the entry into the collection; the event is the insert's
    /// result, 0 when the collection refused it.
    Insert { in_zone: bool },
    /// Run a refresher.
    Refresh(Refresh),
    /// Record the prototype in the manager's second map.
    RecordPrototype,
    /// Done: whether the choice was applied.
    Finish(bool),
}

/// Where applying a choice stands.
#[derive(Clone, Copy, PartialEq, Eq, Structural)]
pub enum ApplyStage {
    Record,
    Output { record: u64 },
    Persist { output: u32 },
    Client,
    ZoneState { client: u64 },
    Insert { in_zone: bool },
    First,
    RefreshFirst { first: u64 },
    Editor,
    Current,
    RefreshCurrent { current: u64 },
    Character,
    ClientVersion { character: u64 },
    ManagerVersion { character: u64, client_version: u32 },
    RefreshCharacter { character: u64, newer: bool },
    RecordPrototype,
    Finished(bool),
}

/// What a choice is applied with: the skin manager, the collection, the
/// choice, and where the client object and the client's collection version
/// are.
#[derive(Clone, Copy)]
pub struct ApplyContext {
    pub manager: u64,
    pub collection: u32,
    pub prototype: u32,
    pub skin: u32,
    pub client_slot: u64,
    pub version_slot: u64,
}

/// The step a stage takes.
pub open spec fn step_of(c: ApplyContext, s: ApplyStage) -> ApplyStep {
    match s {
        ApplyStage::Record => ApplyStep::FindRecord,
        ApplyStage::Output { record } => ApplyStep::Read32(record.wrapping_add(RECORD_OUTPUT)),
        ApplyStage::Persist { output } => ApplyStep::Persist { output },
        ApplyStage::Client => ApplyStep::Read64(c.client_slot),
        ApplyStage::ZoneState { client } => ApplyStep::Read32((client + CLIENT_ZONE_STATE) as u64),
        ApplyStage::Insert { in_zone } => ApplyStep::Insert { in_zone },
        ApplyStage::First => ApplyStep::Read64((c.manager + MGR_REFRESH_FIRST) as u64),
        ApplyStage::RefreshFirst { first } => ApplyStep::Refresh(Refresh::First(first)),
        ApplyStage::Editor => ApplyStep::Read32((c.manager + MGR_EDITOR_COLLECTION) as u64),
        ApplyStage::Current => ApplyStep::Read64((c.manager + MGR_REFRESH_CURRENT) as u64),
        ApplyStage::RefreshCurrent { current } => ApplyStep::Refresh(Refresh::Current(current)),
        ApplyStage::Character => ApplyStep::Read64((c.manager + MGR_REFRESH_CHARACTER) as u64),
        ApplyStage::ClientVersion { .. } => ApplyStep::Read32(c.version_slot),
        ApplyStage::ManagerVersion { .. } => ApplyStep::Read32((c.manager + MGR_COLLECTION_VERSION) as u64),
        ApplyStage::RefreshCharacter { character, newer } => ApplyStep::Refresh(
            if newer {
                Refresh::CharacterNewer(character)
            } else {
                Refresh::Character(character)
            },
        ),
        ApplyStage::RecordPrototype => ApplyStep::RecordPrototype,
        ApplyStage::Finished(applied) => ApplyStep::Finish(applied),
    }
}

/// The stage after a step and its event, as the SetSkinItem handler goes:
/// no record ends it unapplied; the output is read and the choice persisted;
/// the insert is flagged in-zone when the client exists and is in a zone; a
/// refused insert ends it unapplied; then the first refresher, the
/// current-collection one for the editor's collection, one of the character
/// refreshers by the versions, each when its object exists; then the
/// prototype is recorded and the choice is applied.
pub open spec fn after(c: ApplyContext, s: ApplyStage, event: u64) -> ApplyStage {
    match s {
        ApplyStage::Record => if event == 0 {
            ApplyStage::Finished(false)
        } else {
            ApplyStage::Output { record: event }
        },
        ApplyStage::Output { .. } => ApplyStage::Persist { output: event as u32 },
        ApplyStage::Persist { .. } => ApplyStage::Client,
        ApplyStage::Client => if is_user_ptr(event) {
            ApplyStage::ZoneState { client: event }
        } else {
            ApplyStage::Insert { in_zone: false }
        },
        ApplyStage::ZoneState { .. } => ApplyStage::Insert {
            in_zone: event as u32 == ZONE_STATE_IN_ZONE,
        },
        ApplyStage::Insert { .. } => if event == 0 {
            ApplyStage::Finished(false)
        } else {
            ApplyStage::First
        },
        ApplyStage::First => if event != 0 {
            ApplyStage::RefreshFirst { first: event }
        } else {
            ApplyStage::Editor
        },
        ApplyStage::RefreshFirst { .. } => ApplyStage::Editor,
        ApplyStage::Editor => if event as u32 == c.collection {
            ApplyStage::Current
        } else {
            ApplyStage::Character
        },
        ApplyStage::Current => if event != 0 {
            ApplyStage::RefreshCurrent { current: event }
        } else {
            ApplyStage::Character
        },
        ApplyStage::RefreshCurrent { .. } => ApplyStage::Character,
        ApplyStage::Character => if event != 0 {
            ApplyStage::ClientVersion { character: event }
        } else {
            ApplyStage::RecordPrototype
        },
        ApplyStage::ClientVersion { character } => ApplyStage::ManagerVersion {
            character,
            client_version: event as u32,
        },
        ApplyStage::ManagerVersion { character, client_version } => ApplyStage::RefreshCharacter {
            character,
            newer: client_version < event as u32,
        },
        ApplyStage::RefreshCharacter { .. } => ApplyStage::RecordPrototype,
        ApplyStage::RecordPrototype => ApplyStage::Finished(true),
        ApplyStage::Finished(applied) => ApplyStage::Finished(applied),
    }
}

/// The position of a stage in the handler's order.
pub open spec fn stage_order(s: ApplyStage) -> nat {
    match s {
        ApplyStage::Record => 0,
        ApplyStage::Output { .. } => 1,
        ApplyStage::Persist { .. } => 2,
        ApplyStage::Client => 3,
        ApplyStage::ZoneState { .. } => 4,
        ApplyStage::Insert { .. } => 5,
        ApplyStage::First => 6,
        ApplyStage::RefreshFirst { .. } => 7,
        ApplyStage::Editor => 8,
        ApplyStage::Current => 9,
        ApplyStage::RefreshCurrent { .. } => 10,
        ApplyStage::Character => 11,
        ApplyStage::ClientVersion { .. } => 12,
        ApplyStage::ManagerVersion { .. } => 13,
        ApplyStage::RefreshCharacter { .. } => 14,
        ApplyStage::RecordPrototype => 15,
        ApplyStage::Finished(_) => 16,
    }
}

/// Applying one choice.
pub struct Apply {
    pub context: ApplyContext,
    pub stage: ApplyStage,
}

impl Apply {
    /// The manager's fields can be addressed, and a client whose zone state
    /// is read exists.
    pub open spec fn wf(&self) -> bool {
        &&& self.context.manager + MGR_REFRESH_CHARACTER <= u64::MAX
        &&& self.stage matches ApplyStage::ZoneState { client } ==> is_user_ptr(client)
    }

    /// Starts applying a choice; one without a prototype or a skin is not
    /// applied.
    pub fn new(context: ApplyContext) -> (a: Apply)
        requires
            context.manager + MGR_REFRESH_CHARACTER <= u64::MAX,
        ensures
            a.wf(),
            a.context == context,
            a.stage == if context.prototype != 0 && context.skin != 0 {
                ApplyStage::Record
            } else {
                ApplyStage::Finished(false)
            },
    {
        let stage = if accepts(context.prototype, context.skin) {
            ApplyStage::Record
        } else {
            ApplyStage::Finished(false)
        };
        Apply { context, stage }
    }

    /// What to do next.
    pub fn step(&self) -> (r: ApplyStep)
        requires
            self.wf(),
        ensures
            r == step_of(self.context, self.stage),
    {
        let c = &self.context;
        match self.stage {
            ApplyStage::Record => ApplyStep::FindRecord,
            ApplyStage::Output { record } => ApplyStep::Read32(record.wrapping_add(RECORD_OUTPUT)),
            ApplyStage::Persist { output } => ApplyStep::Persist { output },
            ApplyStage::Client => ApplyStep::Read64(c.client_slot),
            ApplyStage::ZoneState { client } => ApplyStep::Read32(client + CLIENT_ZONE_STATE),
            ApplyStage::Insert { in_zone } => ApplyStep::Insert { in_zone },
            ApplyStage::First => ApplyStep::Read64(c.manager + MGR_REFRESH_FIRST),
            ApplyStage::RefreshFirst { first } => ApplyStep::Refresh(Refresh::First(first)),
            ApplyStage::Editor => ApplyStep::Read32(c.manager + MGR_EDITOR_COLLECTION),
            ApplyStage::Current => ApplyStep::Read64(c.manager + MGR_REFRESH_CURRENT),
            ApplyStage::RefreshCurrent { current } => ApplyStep::Refresh(Refresh::Current(current)),
            ApplyStage::Character => ApplyStep::Read64(c.manager + MGR_REFRESH_CHARACTER),
            ApplyStage::ClientVersion { .. } => ApplyStep::Read32(c.version_slot),
            ApplyStage::ManagerVersion { .. } => ApplyStep::Read32(c.manager + MGR_COLLECTION_VERSION),
            ApplyStage::RefreshCharacter { character, newer } => ApplyStep::Refresh(
                if newer {
                    Refresh::CharacterNewer(character)
                } else {
                    Refresh::Character(character)
                },
            ),
            ApplyStage::RecordPrototype => ApplyStep::RecordPrototype,
            ApplyStage::Finished(applied) => ApplyStep::Finish(applied),
        }
    }

    /// Takes the event of the current step.
    pub fn feed(&mut self, event: u64)
        requires
            old(self).wf(),
        ensures
            final(self).wf(),
            final(self).context == old(self).context,
            final(self).stage == after(old(self).context, old(self).stage, event),
    {
        let c = self.context;
        let next = match self.stage {
            ApplyStage::Record => if event == 0 {
                ApplyStage::Finished(false)
            } else {
                ApplyStage::Output { record: event }
            },
            ApplyStage::Output { .. } => ApplyStage::Persist { output: event as u32 },
            ApplyStage::Persist { .. } => ApplyStage::Client,
            ApplyStage::Client => if user_ptr(event) {
                ApplyStage::ZoneState { client: event }
            } else {
                ApplyStage::Insert { in_zone: false }
            },
            ApplyStage::ZoneState { .. } => ApplyStage::Insert {
                in_zone: event as u32 == ZONE_STATE_IN_ZONE,
            },
            ApplyStage::Insert { .. } => if event == 0 {
                ApplyStage::Finished(false)
            } else {
                ApplyStage::First
            },
            ApplyStage::First => if event != 0 {
                ApplyStage::RefreshFirst { first: event }
            } else {
                ApplyStage::Editor
            },
            ApplyStage::RefreshFirst { .. } => ApplyStage::Editor,
            ApplyStage::Editor => if event as u32 == c.collection {
                ApplyStage::Current
            } else {
                ApplyStage::Character
            },
            ApplyStage::Current => if event != 0 {
                ApplyStage::RefreshCurrent { current: event }
            } else {
                ApplyStage::Character
            },
            ApplyStage::RefreshCurrent { .. } => ApplyStage::Character,
            ApplyStage::Character => if event != 0 {
                ApplyStage::ClientVersion { character: event }
            } else {
                ApplyStage::RecordPrototype
            },
            ApplyStage::ClientVersion { character } => ApplyStage::ManagerVersion {
                character,
                client_version: event as u32,
            },
            ApplyStage::ManagerVersion { character, client_version } => ApplyStage::RefreshCharacter {
                character,
                newer: client_version < event as u32,
            },
            ApplyStage::RefreshCharacter { .. } => ApplyStage::RecordPrototype,
            ApplyStage::RecordPrototype => ApplyStage::Finished(true),
            ApplyStage::Finished(applied) => ApplyStage::Finished(applied),
        };
        self.stage = next;
    }
}

/// Applying a choice goes forward through the handler's order: every event
/// before the end moves it to a later stage, so it ends within the number
/// of stages.
pub proof fn law_apply_moves_forward(c: ApplyContext, s: ApplyStage, event: u64)
    requires
        !(s is Finished),
    ensures
        stage_order(after(c, s, event)) > stage_order(s),
        stage_order(after(c, s, event)) <= 16,
{
}

/// The choice is persisted only for a skin item and before the collection
/// insert; after a refused insert nothing more happens.
pub proof fn law_apply_persists_first(c: ApplyContext, s: ApplyStage, event: u64)
    ensures
        s == ApplyStage::Record && event == 0 ==> after(c, s, event) == ApplyStage::Finished(false),
        (after(c, s, event) matches ApplyStage::Insert { .. }) ==> stage_order(s) >= stage_order(
            ApplyStage::Persist { output: 0 },
        ),
        (s matches ApplyStage::Insert { .. }) && event == 0 ==> after(c, s, event) == ApplyStage::Finished(false),
{
}

/// The collection insert is flagged in-zone exactly when a client object
/// exists and the 32-bit zone state at its `+0x389DC` reads 4: with no
/// client the flag is off, and with a client the zone state is read there and
/// any other value turns the flag off.
pub proof fn law_apply_in_zone(c: ApplyContext, client: u64, state: u64)
    ensures
        !is_user_ptr(client) ==> after(c, ApplyStage::Client, client) == (ApplyStage::Insert {
            in_zone: false,
        }),
        is_user_ptr(client) ==> after(c, ApplyStage::Client, client) == (ApplyStage::ZoneState {
            client,
        }),
        is_user_ptr(client) ==> step_of(c, ApplyStage::ZoneState { client }) == ApplyStep::Read32(
            (client + 0x389DC) as u64,
        ),
        after(c, ApplyStage::ZoneState { client }, state) == (ApplyStage::Insert {
            in_zone: state % 0x1_0000_0000 == 4,
        }),
        forall|in_zone: bool|
            step_of(c, ApplyStage::Insert { in_zone }) == (ApplyStep::Insert { in_zone }),
{
    assert((state as u32) as u64 == state % 0x1_0000_0000) by (bit_vector);
}

/// After the insert the refreshers run as the SetSkinItem handler runs
/// them: the output item is the 32-bit value at the record's `+0x10`; the
/// first refresher at the manager's `+360` runs when it exists; the
/// current-collection refresher at `+368` only when the editor's collection
/// at `+280` is the one applied to; the character refresher at `+408`, when
/// it exists, is the older-version one while the client's collection version
/// is at least the manager's at `+288`, and the newer-version one otherwise.
pub proof fn law_apply_refreshers(
    c: ApplyContext,
    record: u64,
    first: u64,
    editor: u64,
    character: u64,
    client_version: u64,
    manager_version: u64,
)
    requires
        c.manager + 408 <= u64::MAX,
    ensures
        record + 0x10 <= u64::MAX ==> step_of(c, ApplyStage::Output { record }) == ApplyStep::Read32(
            (record + 0x10) as u64,
        ),
        step_of(c, ApplyStage::First) == ApplyStep::Read64((c.manager + 360) as u64),
        first != 0 ==> after(c, ApplyStage::First, first) == (ApplyStage::RefreshFirst { first }),
        step_of(c, ApplyStage::RefreshFirst { first }) == ApplyStep::Refresh(Refresh::First(first)),
        after(c, ApplyStage::First, 0) == ApplyStage::Editor,
        step_of(c, ApplyStage::Editor) == ApplyStep::Read32((c.manager + 280) as u64),
        (after(c, ApplyStage::Editor, editor) == ApplyStage::Current) == (editor % 0x1_0000_0000
            == c.collection),
        (editor % 0x1_0000_0000 != c.collection) ==> after(c, ApplyStage::Editor, editor)
            == ApplyStage::Character,
        step_of(c, ApplyStage::Current) == ApplyStep::Read64((c.manager + 368) as u64),
        step_of(c, ApplyStage::Character) == ApplyStep::Read64((c.manager + 408) as u64),
        after(c, ApplyStage::Character, 0) == ApplyStage::RecordPrototype,
        character != 0 ==> ({
            let s1 = after(c, ApplyStage::Character, character);
            let s2 = after(c, s1, client_version);
            let s3 = after(c, s2, manager_version);
            &&& step_of(c, s1) == ApplyStep::Read32(c.version_slot)
            &&& step_of(c, s2) == ApplyStep::Read32((c.manager + 288) as u64)
            &&& step_of(c, s3) == ApplyStep::Refresh(
                if client_version % 0x1_0000_0000 >= manager_version % 0x1_0000_0000 {
                    Refresh::Character(character)
                } else {
                    Refresh::CharacterNewer(character)
                },
            )
            &&& after(c, s3, 0) == ApplyStage::RecordPrototype
        }),
        after(c, ApplyStage::RecordPrototype, 0) == ApplyStage::Finished(true),
{
    assert((editor as u32) as u64 == editor % 0x1_0000_0000) by (bit_vector);
    assert((client_version as u32) as u64 == client_version % 0x1_0000_0000) by (bit_vector);
    assert((manager_version as u32) as u64 == manager_version % 0x1_0000_0000) by (bit_vector);
    if record + 0x10 <= u64::MAX {
        assert(record.wrapping_add(0x10) == record + 0x10);
    }
}

} // verus!
