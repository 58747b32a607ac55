//! The state of a mosaic as plain values: its registry of component types,
//! its tiles by identifier, the tiles that depend on each tile, and the
//! identifiers of each kind of tile; loading saved commands into it, and
//! creating objects in it.
//!
//! A tile keeps the bytes its fields were read from: turning them into field
//! values is left to the caller.
use std::collections::{HashMap, HashSet};
use vstd::prelude::*;

use crate::component_registry::ComponentRegistry;
use crate::datatypes::{fixed32_text, ComponentField, ComponentType, Datatype, S32};
use crate::byte_utilities::ToByteArray;
use crate::logging::Logging;
use crate::mosaic_io::{
    load_mosaic_commands, loadable, loaded, placed_tile, save_mosaic, saved_bytes, steps_of, with_id, ids_ascending,
    defines_saved_type, add_steps, create_steps, saved_frame, saved_frames, saved_name, tile_name,
    LoadStep, MosaicLoadCommand, SavedTile, TileFrame,
};
use crate::text::without_nul;
use crate::tile::points_away;
use vstd::utf8::{encode_utf8, encode_utf8_decode_utf8};
use crate::text::{text_le, texts_of};
use crate::sparse_set::{EntityId, SparseSet};
use crate::text::{before_colon, trimmed};
use crate::tile::TileType;

verus! {

broadcast use vstd::std_specs::hash::group_hash_axioms;

/// A tile: its identifier, its kind, the name of its component and the bytes
/// of its fields.
pub struct TileRecord {
    pub id: EntityId,
    pub tile_type: TileType,
    pub component: S32,
    pub data: Vec<u8>,
}

/// The state of a mosaic. `counter` is where fresh identifiers are counted
/// from; `registry` holds the component types; `tiles` maps an identifier to
/// its tile; `dependents` lists, in the order they were linked, the pairs of a
/// tile and a tile that depends on it; the four sets hold the identifiers of
/// each kind of tile.
pub struct MosaicState {
    pub counter: EntityId,
    pub registry: ComponentRegistry,
    pub tiles: HashMap<EntityId, TileRecord>,
    pub dependents: Vec<(EntityId, EntityId)>,
    pub object_ids: SparseSet,
    pub arrow_ids: SparseSet,
    pub descriptor_ids: SparseSet,
    pub extension_ids: SparseSet,
}

/// A tile as plain values.
pub struct TileEntry {
    pub tile_type: TileType,
    pub component: Seq<char>,
    pub data: Seq<u8>,
}

/// The tiles of a mosaic and their links as plain values.
pub struct MosaicView {
    pub tiles: Map<EntityId, TileEntry>,
    pub dependents: Seq<(EntityId, EntityId)>,
    pub objects: Set<EntityId>,
    pub arrows: Set<EntityId>,
    pub descriptors: Set<EntityId>,
    pub extensions: Set<EntityId>,
}

/// The plain values of a tile.
pub open spec fn entry_of(r: TileRecord) -> TileEntry {
    TileEntry { tile_type: r.tile_type, component: r.component.0@, data: r.data@ }
}

/// The name a definition defines: the text before its first colon, trimmed,
/// as a fixed 32-byte name.
pub open spec fn name_of_definition(def: Seq<char>) -> Seq<char> {
    fixed32_text(trimmed(before_colon(def)))
}

/// `x` shifted by `offset`.
pub open spec fn shifted(x: EntityId, offset: EntityId) -> EntityId {
    (x + offset) as EntityId
}

/// The byte size of a field of type `d`, for the types whose size is fixed.
pub open spec fn datatype_size(d: Datatype) -> Option<nat> {
    match d {
        Datatype::UNIT => Some(0),
        Datatype::BOOL | Datatype::I8 | Datatype::U8 => Some(1),
        Datatype::I16 | Datatype::U16 => Some(2),
        Datatype::I32 | Datatype::U32 | Datatype::F32 => Some(4),
        Datatype::I64 | Datatype::U64 | Datatype::F64 => Some(8),
        Datatype::S32 => Some(32),
        Datatype::S128 => None,
        Datatype::COMP(_) => None,
    }
}

/// Every field has a type of fixed size.
pub open spec fn has_layout(fields: Seq<ComponentField>) -> bool {
    forall|i: int| 0 <= i < fields.len() ==> (#[trigger] datatype_size(fields[i].datatype)) is Some
}

/// The bytes the fields take, one after another.
pub open spec fn layout_size(fields: Seq<ComponentField>) -> nat
    decreases fields.len(),
{
    if fields.len() == 0 {
        0
    } else {
        layout_size(fields.drop_last()) + match datatype_size(fields.last().datatype) {
            Some(n) => n,
            None => 0,
        }
    }
}

/// The fields of the component registered under `c`.
pub open spec fn component_fields(reg: ComponentRegistry, c: Seq<char>) -> Seq<ComponentField> {
    match reg.lookup(c) {
        Some(t) => t.field_list(),
        None => Seq::empty(),
    }
}

/// A tile's data is shorter than the fields of its component.
pub open spec fn step_fails(reg: ComponentRegistry, step: LoadStep) -> bool {
    match step {
        LoadStep::AddType(_) => false,
        LoadStep::CreateTile(_, _, _, component, data) => data.len() < layout_size(component_fields(reg, component)),
    }
}

/// The state after one load step, with identifiers shifted by `offset`: a
/// definition of a known type changes nothing; a tile is put under its shifted
/// identifier with the kind its shifted endpoints give and the bytes its
/// fields take, its identifier joins the set of that kind, and it is linked
/// as a dependent of each endpoint other than itself.
pub open spec fn after_step(v: MosaicView, offset: EntityId, reg: ComponentRegistry, step: LoadStep) -> MosaicView {
    match step {
        LoadStep::AddType(_) => v,
        LoadStep::CreateTile(id, source, target, component, data) => {
            let i = shifted(id, offset);
            let kind = TileType::spec_from_endpoints(i, shifted(source, offset), shifted(target, offset));
            let kept = data.take(layout_size(component_fields(reg, component)) as int);
            placed(v, i, TileEntry { tile_type: kind, component, data: kept })
        },
    }
}

/// The state with tile `e` put under `i`: its identifier joins the set of its
/// kind, and it is linked as a dependent of each endpoint its kind names.
pub open spec fn placed(v: MosaicView, i: EntityId, e: TileEntry) -> MosaicView {
    let tiles = v.tiles.insert(i, e);
    match e.tile_type {
        TileType::Object => MosaicView {
            tiles,
            dependents: v.dependents,
            objects: v.objects.insert(i),
            arrows: v.arrows,
            descriptors: v.descriptors,
            extensions: v.extensions,
        },
        TileType::Descriptor { subject } => MosaicView {
            tiles,
            dependents: v.dependents.push((subject, i)),
            objects: v.objects,
            arrows: v.arrows,
            descriptors: v.descriptors.insert(i),
            extensions: v.extensions,
        },
        TileType::Extension { subject } => MosaicView {
            tiles,
            dependents: v.dependents.push((subject, i)),
            objects: v.objects,
            arrows: v.arrows,
            descriptors: v.descriptors,
            extensions: v.extensions.insert(i),
        },
        TileType::Arrow { source, target } => MosaicView {
            tiles,
            dependents: v.dependents.push((source, i)).push((target, i)),
            objects: v.objects,
            arrows: v.arrows.insert(i),
            descriptors: v.descriptors,
            extensions: v.extensions,
        },
    }
}

/// The state after the load steps, in order.
pub open spec fn after_steps(v: MosaicView, offset: EntityId, reg: ComponentRegistry, steps: Seq<LoadStep>) -> MosaicView
    decreases steps.len(),
{
    if steps.len() == 0 {
        v
    } else {
        after_step(after_steps(v, offset, reg, steps.drop_last()), offset, reg, steps.last())
    }
}

/// No step before `k` fails.
pub open spec fn none_fail_before(reg: ComponentRegistry, steps: Seq<LoadStep>, k: int) -> bool {
    forall|j: int| 0 <= j < k ==> !step_fails(reg, #[trigger] steps[j])
}

/// Whether a load step can be taken: a definition is of a registered type; a
/// tile's shifted identifier and endpoints fit, and its component is
/// registered with fields of fixed size.
pub open spec fn step_fits(reg: ComponentRegistry, offset: EntityId, step: LoadStep) -> bool {
    match step {
        LoadStep::AddType(def) => reg.lookup(name_of_definition(def)) is Some,
        LoadStep::CreateTile(id, source, target, component, _) => {
            &&& id + offset <= usize::MAX
            &&& source + offset <= usize::MAX
            &&& target + offset <= usize::MAX
            &&& reg.lookup(component) is Some
            &&& has_layout(component_fields(reg, component))
        },
    }
}

/// Every step that is reached (no earlier one failed) can be taken.
pub open spec fn steps_fit(reg: ComponentRegistry, offset: EntityId, steps: Seq<LoadStep>) -> bool {
    forall|k: int| 0 <= k < steps.len() && none_fail_before(reg, steps, k) ==> step_fits(reg, offset, #[trigger] steps[k])
}

/// Loading the steps succeeds and gives `after`, or stops with an error at
/// the first step whose data is too short, keeping what the steps before it did.
pub open spec fn load_outcome(
    before: MosaicView,
    offset: EntityId,
    reg: ComponentRegistry,
    steps: Seq<LoadStep>,
    ok: bool,
    after: MosaicView,
) -> bool {
    &&& ok <==> none_fail_before(reg, steps, steps.len() as int)
    &&& ok ==> after == after_steps(before, offset, reg, steps)
    &&& !ok ==> exists|k: int| #![trigger steps[k]]
        0 <= k < steps.len()
        && step_fails(reg, steps[k])
        && none_fail_before(reg, steps, k)
        && after == after_steps(before, offset, reg, steps.take(k))
}

/// The byte size of a field of type `d`, for the types whose size is fixed.
fn datatype_bytes(d: &Datatype) -> (n: usize)
    requires
        datatype_size(*d) is Some,
    ensures
        n == datatype_size(*d)->0,
{
    match d {
        Datatype::UNIT => 0,
        Datatype::BOOL | Datatype::I8 | Datatype::U8 => 1,
        Datatype::I16 | Datatype::U16 => 2,
        Datatype::I32 | Datatype::U32 | Datatype::F32 => 4,
        Datatype::I64 | Datatype::U64 | Datatype::F64 => 8,
        Datatype::S32 => 32,
        Datatype::S128 => 0,
        Datatype::COMP(_) => 0,
    }
}

/// The text of a fixed 32-byte name fits in 32 bytes before padding.
proof fn lemma_prefix_within_fits(t: Seq<char>, cap: nat)
    ensures
        encode_utf8(crate::datatypes::prefix_within(t, cap)).len() <= cap,
    decreases t.len(),
{
    if !(encode_utf8(t).len() <= cap || t.len() == 0) {
        lemma_prefix_within_fits(t.drop_last(), cap);
    }
}

/// Law: the bytes a field is taken to occupy when a tile is loaded are the
/// bytes its type's codec writes: one for `u8`, `i8` and `bool`, two for
/// `u16` and `i16`, four for `u32` and `i32`, eight for `u64` and `i64`, and
/// 32 for a name; a float takes the bytes of the integer of its bit width,
/// and the unit type none.
pub proof fn lemma_field_sizes_are_codec_widths()
    ensures
        forall|x: u8| datatype_size(Datatype::U8) == Some(#[trigger] x.encoded().len()),
        forall|x: i8| datatype_size(Datatype::I8) == Some(#[trigger] x.encoded().len()),
        forall|x: bool| datatype_size(Datatype::BOOL) == Some(#[trigger] x.encoded().len()),
        forall|x: u16| datatype_size(Datatype::U16) == Some(#[trigger] x.encoded().len()),
        forall|x: i16| datatype_size(Datatype::I16) == Some(#[trigger] x.encoded().len()),
        forall|x: u32| datatype_size(Datatype::U32) == Some(#[trigger] x.encoded().len()),
        forall|x: i32| datatype_size(Datatype::I32) == Some(#[trigger] x.encoded().len()),
        forall|x: u64| datatype_size(Datatype::U64) == Some(#[trigger] x.encoded().len()),
        forall|x: i64| datatype_size(Datatype::I64) == Some(#[trigger] x.encoded().len()),
        forall|y: S32, t: Seq<char>| #![trigger y.encoded(), fixed32_text(t)] y.0@ == fixed32_text(t) ==> datatype_size(Datatype::S32) == Some(y.encoded().len()),
        datatype_size(Datatype::F32) == datatype_size(Datatype::U32),
        datatype_size(Datatype::F64) == datatype_size(Datatype::U64),
        datatype_size(Datatype::UNIT) == Some(0nat),
{
    crate::byte_utilities::lemma_codec_roundtrip();
    assert forall|x: i8| datatype_size(Datatype::I8) == Some(#[trigger] x.encoded().len()) by {
        assert(<i8 as crate::byte_utilities::FromByteArray>::decodes_to(x.encoded(), x));
    }
    assert forall|x: bool| datatype_size(Datatype::BOOL) == Some(#[trigger] x.encoded().len()) by {
        assert(<bool as crate::byte_utilities::FromByteArray>::decodes_to(x.encoded(), x));
    }
    assert forall|x: u8| datatype_size(Datatype::U8) == Some(#[trigger] x.encoded().len()) by {
        assert(<u8 as crate::byte_utilities::FromByteArray>::decodes_to(x.encoded(), x));
    }
    assert forall|x: u16| datatype_size(Datatype::U16) == Some(#[trigger] x.encoded().len()) by {
        assert(<u16 as crate::byte_utilities::FromByteArray>::decodes_to(x.encoded(), x));
    }
    assert forall|x: i16| datatype_size(Datatype::I16) == Some(#[trigger] x.encoded().len()) by {
        assert(<i16 as crate::byte_utilities::FromByteArray>::decodes_to(x.encoded(), x));
    }
    assert forall|x: u32| datatype_size(Datatype::U32) == Some(#[trigger] x.encoded().len()) by {
        assert(<u32 as crate::byte_utilities::FromByteArray>::decodes_to(x.encoded(), x));
    }
    assert forall|x: i32| datatype_size(Datatype::I32) == Some(#[trigger] x.encoded().len()) by {
        assert(<i32 as crate::byte_utilities::FromByteArray>::decodes_to(x.encoded(), x));
    }
    assert forall|x: u64| datatype_size(Datatype::U64) == Some(#[trigger] x.encoded().len()) by {
        assert(<u64 as crate::byte_utilities::FromByteArray>::decodes_to(x.encoded(), x));
    }
    assert forall|x: i64| datatype_size(Datatype::I64) == Some(#[trigger] x.encoded().len()) by {
        assert(<i64 as crate::byte_utilities::FromByteArray>::decodes_to(x.encoded(), x));
    }
    assert forall|y: S32, t: Seq<char>| #![trigger y.encoded(), fixed32_text(t)] y.0@ == fixed32_text(t) implies datatype_size(Datatype::S32) == Some(y.encoded().len()) by {
        let p = crate::datatypes::prefix_within(t, 32);
        lemma_prefix_within_fits(t, 32);
        let pad = Seq::new((32 - encode_utf8(p).len()) as nat, |i: int| '\0');
        assert(vstd::utf8::is_ascii_chars(pad));
        vstd::utf8::is_ascii_chars_encode_utf8(pad);
        crate::strings::lemma_encode_concat(p, pad);
        assert(y.0@ == p + pad);
    }
}

/// The bytes of a prefix of the fields are at most those of all of them.
proof fn lemma_layout_prefix(fields: Seq<ComponentField>, i: int)
    requires
        0 <= i <= fields.len(),
    ensures
        layout_size(fields.take(i)) <= layout_size(fields),
    decreases fields.len(),
{
    if i < fields.len() {
        assert(fields.drop_last().take(i) =~= fields.take(i));
        lemma_layout_prefix(fields.drop_last(), i);
    } else {
        assert(fields.take(i) =~= fields);
    }
}

/// Walks the fields over `data_len` bytes, as a tile's data is read: the
/// bytes all fields take when they fit, or `None` at the first field that
/// runs past the end.
fn fitted_length(fields: &Vec<ComponentField>, data_len: usize) -> (r: Option<usize>)
    requires
        has_layout(fields@),
    ensures
        r matches Some(n) ==> n == layout_size(fields@) && n <= data_len,
        r is None ==> data_len < layout_size(fields@),
{
    let mut ptr: usize = 0;
    let mut i: usize = 0;
    while i < fields.len()
        invariant
            i <= fields.len(),
            has_layout(fields@),
            ptr == layout_size(fields@.take(i as int)),
            ptr <= data_len,
        decreases fields.len() - i,
    {
        assert(fields@.take(i + 1).drop_last() =~= fields@.take(i as int));
        assert(fields@.take(i + 1).last() == fields@[i as int]);
        let size = datatype_bytes(&fields[i].datatype);
        assert(datatype_size(fields@[i as int].datatype) is Some);
        if size > data_len - ptr {
            proof {
                lemma_layout_prefix(fields@, i + 1);
            }
            return None;
        }
        ptr = ptr + size;
        i = i + 1;
    }
    assert(fields@.take(i as int) =~= fields@);
    Some(ptr)
}

impl MosaicState {
    /// The tiles and links as plain values.
    pub open spec fn model(&self) -> MosaicView {
        MosaicView {
            tiles: self.tiles@.map_values(|r: TileRecord| entry_of(r)),
            dependents: self.dependents@,
            objects: self.object_ids.members(),
            arrows: self.arrow_ids.members(),
            descriptors: self.descriptor_ids.members(),
            extensions: self.extension_ids.members(),
        }
    }

    /// The four identifier sets are well formed, every tile is filed under
    /// its own identifier, and every tile's identifier is in the set of its
    /// kind.
    pub open spec fn wf(&self) -> bool {
        &&& self.object_ids.wf()
        &&& self.arrow_ids.wf()
        &&& self.descriptor_ids.wf()
        &&& self.extension_ids.wf()
        &&& forall|k: EntityId| #[trigger] self.tiles@.contains_key(k) ==> self.tiles@[k].id == k
        &&& kinds_recorded(self.model())
    }

    /// A new mosaic: no tiles, and the one type `void: unit;`, an alias of
    /// the unit type.
    pub fn new() -> (m: MosaicState)
        ensures
            m.wf(),
            m.counter == 0,
            m.registry.component_definitions@.len() == 1,
            m.registry.component_definitions@[0]@ == "void: unit;"@,
            m.registry.component_type_map@.len() == 1,
            m.registry.component_type_map@[0].1 matches ComponentType::Alias(f) && f.datatype == Datatype::UNIT
                && f.name.0@ == fixed32_text("void"@),
            m.model().tiles == Map::<EntityId, TileEntry>::empty(),
            m.model().dependents == Seq::<(EntityId, EntityId)>::empty(),
            m.model().objects == Set::<EntityId>::empty(),
            m.model().arrows == Set::<EntityId>::empty(),
            m.model().descriptors == Set::<EntityId>::empty(),
            m.model().extensions == Set::<EntityId>::empty(),
    {
        let mut registry = ComponentRegistry::new();
        let void = ComponentType::Alias(ComponentField { name: S32::from_text("void"), datatype: Datatype::UNIT });
        let ghost void_type = void;
        proof {
            registry.keys().index_of_first_ensures(crate::component_registry::registry_key(void));
        }
        registry.add_raw_component_type(void);
        assert(registry.component_type_map@[0].1.shape() == void_type.shape());
        registry.component_definitions.push("void: unit;".to_owned());
        let m = MosaicState {
            counter: 0,
            registry,
            tiles: HashMap::new(),
            dependents: Vec::new(),
            object_ids: SparseSet::new(),
            arrow_ids: SparseSet::new(),
            descriptor_ids: SparseSet::new(),
            extension_ids: SparseSet::new(),
        };
        assert(m.model().tiles =~= Map::<EntityId, TileEntry>::empty());
        assert(m.object_ids.members() =~= Set::<EntityId>::empty());
        assert(m.arrow_ids.members() =~= Set::<EntityId>::empty());
        assert(m.descriptor_ids.members() =~= Set::<EntityId>::empty());
        assert(m.extension_ids.members() =~= Set::<EntityId>::empty());
        m
    }

    /// Whether a tile is filed under `id`.
    pub fn is_tile_valid(&self, id: EntityId) -> (b: bool)
        ensures
            b == self.model().tiles.contains_key(id),
    {
        self.tiles.contains_key(&id)
    }

    /// The next free identifier: the counter moves on past every identifier
    /// already in use, and past the one handed out.
    pub fn next_id(&mut self) -> (id: EntityId)
        requires
            exists|k: EntityId| old(self).counter <= k < usize::MAX && !old(self).tiles@.contains_key(k),
        ensures
            old(self).counter <= id,
            !old(self).tiles@.contains_key(id),
            forall|j: EntityId| old(self).counter <= j < id ==> old(self).tiles@.contains_key(j),
            final(self).counter == id + 1,
            final(self).tiles == old(self).tiles,
            final(self).registry == old(self).registry,
            final(self).dependents == old(self).dependents,
            final(self).object_ids == old(self).object_ids,
            final(self).arrow_ids == old(self).arrow_ids,
            final(self).descriptor_ids == old(self).descriptor_ids,
            final(self).extension_ids == old(self).extension_ids,
    {
        let ghost start = self.counter;
        let ghost pre = *self;
        let ghost free = choose|k: EntityId| start <= k < usize::MAX && !self.tiles@.contains_key(k);
        while self.tiles.contains_key(&self.counter)
            invariant
                start <= self.counter <= free,
                free < usize::MAX,
                !self.tiles@.contains_key(free),
                forall|j: EntityId| start <= j < self.counter ==> self.tiles@.contains_key(j),
                self.tiles == pre.tiles,
                self.registry == pre.registry,
                self.dependents == pre.dependents,
                self.object_ids == pre.object_ids,
                self.arrow_ids == pre.arrow_ids,
                self.descriptor_ids == pre.descriptor_ids,
                self.extension_ids == pre.extension_ids,
            decreases free - self.counter,
        {
            self.counter = self.counter + 1;
        }
        let id = self.counter;
        self.counter = id + 1;
        id
    }

    /// Creates an object of `component` with the given field bytes under the
    /// next free identifier, and returns that identifier.
    pub fn new_object(&mut self, component: &str, data: Vec<u8>) -> (id: EntityId)
        requires
            old(self).wf(),
            exists|k: EntityId| old(self).counter <= k < usize::MAX && !old(self).tiles@.contains_key(k),
            old(self).registry.lookup(fixed32_text(component@)) is Some,
        ensures
            final(self).wf(),
            old(self).counter <= id,
            !old(self).model().tiles.contains_key(id),
            forall|j: EntityId| old(self).counter <= j < id ==> old(self).model().tiles.contains_key(j),
            final(self).counter == id + 1,
            final(self).registry == old(self).registry,
            final(self).model() == placed(
                old(self).model(),
                id,
                TileEntry { tile_type: TileType::Object, component: fixed32_text(component@), data: data@ },
            ),
    {
        let id = self.next_id();
        self.place_tile(id, TileType::Object, S32::from_text(component), data);
        id
    }

    /// Puts a tile under `at` with kind `kind`, records its identifier in the
    /// set of that kind, and links it as a dependent of its other endpoints.
    fn place_tile(&mut self, at: EntityId, kind: TileType, component: S32, data: Vec<u8>)
        requires
            old(self).wf(),
        ensures
            final(self).wf(),
            final(self).counter == old(self).counter,
            final(self).registry == old(self).registry,
            final(self).model() == placed(old(self).model(), at, TileEntry { tile_type: kind, component: component.0@, data: data@ }),
    {
        let ghost before = self.model();
        let ghost entry = TileEntry { tile_type: kind, component: component.0@, data: data@ };
        let record = TileRecord { id: at, tile_type: kind, component, data };
        self.tiles.insert(at, record);
        proof {
            assert(self.model().tiles =~= before.tiles.insert(at, entry));
        }
        match kind {
            TileType::Object => {
                self.object_ids.add(at);
            },
            TileType::Descriptor { subject } => {
                self.dependents.push((subject, at));
                self.descriptor_ids.add(at);
            },
            TileType::Extension { subject } => {
                self.dependents.push((subject, at));
                self.extension_ids.add(at);
            },
            TileType::Arrow { source, target } => {
                self.dependents.push((source, at));
                self.dependents.push((target, at));
                self.arrow_ids.add(at);
            },
        }
        proof {
            lemma_placed_keeps_kinds_recorded(before, at, entry);
        }
    }

    /// Takes one load command, with identifiers shifted by `offset`; fails,
    /// changing nothing, when a tile's data is shorter than its component's
    /// fields.
    fn apply_command(&mut self, offset: EntityId, cmd: &MosaicLoadCommand) -> (r: Result<(), anyhow::Error>)
        requires
            old(self).wf(),
            step_fits(old(self).registry, offset, crate::mosaic_io::step_of(*cmd)),
        ensures
            final(self).wf(),
            final(self).counter == old(self).counter,
            final(self).registry == old(self).registry,
            r is Err <==> step_fails(old(self).registry, crate::mosaic_io::step_of(*cmd)),
            r is Ok ==> final(self).model() == after_step(
                old(self).model(),
                offset,
                old(self).registry,
                crate::mosaic_io::step_of(*cmd),
            ),
            r is Err ==> final(self).model() == old(self).model(),
    {
        match cmd {
            MosaicLoadCommand::AddType(_) => {
                // The contract asks for the type to be registered already, so
                // there is nothing to add.
                Ok(())
            },
            MosaicLoadCommand::CreateTile(id, source, target, component, data) => {
                let (at, kind) = placed_tile(offset, *id, *source, *target);
                let component_type = match self.registry.get_component_type(component.clone()) {
                    Ok(t) => t,
                    Err(e) => {
                        return Err(e);
                    },
                };
                let fields = component_type.get_fields();
                proof {
                    assert(fields@ == component_fields(self.registry, component.0@));
                }
                match fitted_length(&fields, data.len()) {
                    Some(n) => {
                        let mut kept = data.clone();
                        kept.truncate(n);
                        proof {
                            assert(kept@ =~= data@.take(n as int));
                        }
                        self.place_tile(at, kind, component.clone(), kept);
                        Ok(())
                    },
                    None => {
                        let message = String::from_str("Wrong data layout in component ").concat(
                            component.to_string().as_str(),
                        );
                        message.to_error()
                    },
                }
            },
        }
    }

    /// Loads the commands of a saved mosaic, with every identifier shifted by
    /// the counter: each tile is placed by its shifted identifier and
    /// endpoints, with the bytes its component's fields take; loading stops
    /// with an error at the first tile whose data is too short.
    pub fn load_into(&mut self, cmds: Vec<MosaicLoadCommand>) -> (r: Result<(), anyhow::Error>)
        requires
            old(self).wf(),
            steps_fit(old(self).registry, old(self).counter, steps_of(cmds@)),
        ensures
            final(self).wf(),
            final(self).counter == old(self).counter,
            final(self).registry == old(self).registry,
            load_outcome(old(self).model(), old(self).counter, old(self).registry, steps_of(cmds@), r is Ok, final(self).model()),
    {
        let offset = self.counter;
        let ghost start = self.model();
        let ghost reg = self.registry;
        let ghost steps = steps_of(cmds@);
        let mut i: usize = 0;
        while i < cmds.len()
            invariant
                i <= cmds.len(),
                self.wf(),
                self.counter == offset,
                offset == old(self).counter,
                start == old(self).model(),
                reg == old(self).registry,
                self.registry == reg,
                steps == steps_of(cmds@),
                steps.len() == cmds.len(),
                steps_fit(reg, offset, steps),
                none_fail_before(reg, steps, i as int),
                self.model() == after_steps(start, offset, reg, steps.take(i as int)),
            decreases cmds.len() - i,
        {
            proof {
                assert(steps.take(i + 1).drop_last() =~= steps.take(i as int));
                assert(steps[i as int] == crate::mosaic_io::step_of(cmds@[i as int]));
                assert(step_fits(reg, offset, steps[i as int]));
            }
            let step_result = self.apply_command(offset, &cmds[i]);
            if step_result.is_err() {
                proof {
                    assert(step_fails(reg, steps[i as int]));
                    assert(!none_fail_before(reg, steps, steps.len() as int));
                }
                return step_result;
            }
            i = i + 1;
        }
        proof {
            assert(steps.take(cmds.len() as int) =~= steps);
        }
        Ok(())
    }

    /// Loads a saved mosaic: reads its commands and takes them in turn, with
    /// every identifier shifted by the counter.
    pub fn load(&mut self, data: &[u8]) -> (r: Result<(), anyhow::Error>)
        requires
            old(self).wf(),
            loadable(data@),
            steps_fit(old(self).registry, old(self).counter, loaded(data@)),
        ensures
            final(self).wf(),
            final(self).counter == old(self).counter,
            final(self).registry == old(self).registry,
            load_outcome(old(self).model(), old(self).counter, old(self).registry, loaded(data@), r is Ok, final(self).model()),
    {
        match load_mosaic_commands(data) {
            Ok(cmds) => {
                self.load_into(cmds)
            },
            Err(e) => Err(e),
        }
    }
}

/// `t` is the tile `m` holds under `t.id`, with its endpoints.
pub open spec fn saved_from(t: SavedTile, m: Map<EntityId, TileEntry>) -> bool {
    &&& m.contains_key(t.id)
    &&& t.source == m[t.id].tile_type.spec_source(t.id)
    &&& t.target == m[t.id].tile_type.spec_target(t.id)
    &&& t.component.0@ == m[t.id].component
    &&& t.data@ == m[t.id].data
}

/// `tiles` lists every tile of `m` once.
pub open spec fn lists_tiles(tiles: Seq<SavedTile>, m: Map<EntityId, TileEntry>) -> bool {
    &&& forall|i: int| 0 <= i < tiles.len() ==> saved_from(#[trigger] tiles[i], m)
    &&& forall|i: int, j: int| 0 <= i < j < tiles.len() ==> #[trigger] tiles[i].id != #[trigger] tiles[j].id
    &&& forall|k: EntityId| #[trigger] m.contains_key(k) ==> exists|i: int| 0 <= i < tiles.len() && #[trigger] tiles[i].id == k
}

/// `bytes` are what a mosaic with the type definitions `definitions` and the
/// tiles `m` is saved as: the definitions its tiles use, sorted and once
/// each, then each tile once, in ascending order of identifiers.
pub open spec fn saves_as(definitions: Seq<String>, m: Map<EntityId, TileEntry>, bytes: Seq<u8>) -> bool {
    exists|tiles: Seq<SavedTile>, defs: Seq<String>, order: Seq<SavedTile>| {
        &&& lists_tiles(tiles, m)
        &&& texts_of(defs).no_duplicates()
        &&& (forall|i: int, j: int| 0 <= i < j < defs.len() ==> text_le(#[trigger] defs[i]@, #[trigger] defs[j]@))
        &&& texts_of(defs).to_set() == texts_of(definitions).filter(defines_saved_type(tiles)).to_set()
        &&& ids_ascending(order)
        &&& (forall|k: EntityId| #[trigger] with_id(order, k) == with_id(tiles, k))
        &&& bytes == saved_bytes(texts_of(defs), order)
    }
}

impl MosaicState {
    /// Adds to `out` the tiles filed under the members of `set` that are not
    /// in `out` yet.
    fn collect_saved(&self, set: &SparseSet, emitted: &mut HashSet<EntityId>, out: &mut Vec<SavedTile>)
        requires
            self.wf(),
            set.wf(),
            forall|i: int| 0 <= i < old(out)@.len() ==> saved_from(#[trigger] old(out)@[i], self.model().tiles),
            forall|i: int, j: int| 0 <= i < j < old(out)@.len() ==> #[trigger] old(out)@[i].id != #[trigger] old(out)@[j].id,
            forall|k: EntityId| #[trigger] old(emitted)@.contains(k) <==> exists|i: int| 0 <= i < old(out)@.len() && #[trigger] old(out)@[i].id == k,
        ensures
            forall|i: int| 0 <= i < final(out)@.len() ==> saved_from(#[trigger] final(out)@[i], self.model().tiles),
            forall|i: int, j: int| 0 <= i < j < final(out)@.len() ==> #[trigger] final(out)@[i].id != #[trigger] final(out)@[j].id,
            forall|k: EntityId| #[trigger] final(emitted)@.contains(k) <==> exists|i: int| 0 <= i < final(out)@.len() && #[trigger] final(out)@[i].id == k,
            forall|k: EntityId| #[trigger] old(emitted)@.contains(k) ==> final(emitted)@.contains(k),
            forall|k: EntityId| set.member(k) && self.model().tiles.contains_key(k) ==> #[trigger] final(emitted)@.contains(k),
    {
        let dense = set.elements();
        let n = set.len();
        let ghost e0 = emitted@;
        let mut j: usize = 0;
        while j < n
            invariant
                j <= n,
                n == set.order_max,
                n <= dense@.len(),
                dense@ == set.dense(),
                self.wf(),
                forall|i: int| 0 <= i < out@.len() ==> saved_from(#[trigger] out@[i], self.model().tiles),
                forall|i: int, j2: int| 0 <= i < j2 < out@.len() ==> #[trigger] out@[i].id != #[trigger] out@[j2].id,
                forall|k: EntityId| #[trigger] emitted@.contains(k) <==> exists|i: int| 0 <= i < out@.len() && #[trigger] out@[i].id == k,
                forall|k: EntityId| #[trigger] e0.contains(k) ==> emitted@.contains(k),
                forall|q: int| 0 <= q < j && self.model().tiles.contains_key(#[trigger] dense@[q]) ==> emitted@.contains(dense@[q]),
            decreases n - j,
        {
            let k = dense[j];
            if self.tiles.contains_key(&k) && !emitted.contains(&k) {
                let record = self.tiles.get(&k).unwrap();
                let t = SavedTile {
                    id: k,
                    source: record.tile_type.source_id(k),
                    target: record.tile_type.target_id(k),
                    component: record.component.clone(),
                    data: record.data.clone(),
                };
                proof {
                    assert(t.data@ =~= record.data@);
                    assert(saved_from(t, self.model().tiles));
                }
                let ghost before = out@;
                out.push(t);
                emitted.insert(k);
                proof {
                    assert forall|x: EntityId| #[trigger] emitted@.contains(x) <==> exists|i: int| 0 <= i < out@.len() && #[trigger] out@[i].id == x by {
                        if emitted@.contains(x) && x != k {
                            let i = choose|i: int| 0 <= i < before.len() && #[trigger] before[i].id == x;
                            assert(out@[i] == before[i]);
                        }
                        if x == k {
                            assert(out@[before.len() as int].id == x);
                        }
                        if exists|i: int| 0 <= i < out@.len() && #[trigger] out@[i].id == x {
                            let i = choose|i: int| 0 <= i < out@.len() && #[trigger] out@[i].id == x;
                            if i < before.len() {
                                assert(before[i].id == x);
                            }
                        }
                    }
                    assert forall|i: int, j2: int| 0 <= i < j2 < out@.len() implies #[trigger] out@[i].id != #[trigger] out@[j2].id by {
                        if j2 == before.len() {
                            assert(out@[i] == before[i]);
                            if before[i].id == k {
                                assert(emitted@.contains(k));
                            }
                        } else {
                            assert(out@[i] == before[i]);
                            assert(out@[j2] == before[j2]);
                        }
                    }
                    assert forall|i: int| 0 <= i < out@.len() implies saved_from(#[trigger] out@[i], self.model().tiles) by {
                        if i < before.len() {
                            assert(out@[i] == before[i]);
                        }
                    }
                }
            }
            j = j + 1;
        }
        proof {
            assert forall|k: EntityId| set.member(k) && self.model().tiles.contains_key(k) implies #[trigger] emitted@.contains(k) by {
                let q = set.sparse()[k] - 1;
                assert(dense@[q] == k);
            }
        }
    }

    /// The bytes the mosaic is saved as: the definitions its tiles use, then
    /// each tile once, in ascending order of identifiers.
    pub fn save(&self) -> (r: Vec<u8>)
        requires
            self.wf(),
        ensures
            saves_as(self.registry.component_definitions@, self.model().tiles, r@),
    {
        let mut out: Vec<SavedTile> = Vec::new();
        let mut emitted: HashSet<EntityId> = HashSet::new();
        proof {
            assert forall|k: EntityId| #[trigger] emitted@.contains(k) <==> exists|i: int| 0 <= i < out@.len() && #[trigger] out@[i].id == k by {}
        }
        self.collect_saved(&self.object_ids, &mut emitted, &mut out);
        let ghost e1 = emitted@;
        self.collect_saved(&self.arrow_ids, &mut emitted, &mut out);
        let ghost e2 = emitted@;
        self.collect_saved(&self.descriptor_ids, &mut emitted, &mut out);
        let ghost e3 = emitted@;
        self.collect_saved(&self.extension_ids, &mut emitted, &mut out);
        let ghost listed = out@;
        proof {
            let m = self.model().tiles;
            assert forall|k: EntityId| #[trigger] m.contains_key(k) implies exists|i: int| 0 <= i < listed.len() && #[trigger] listed[i].id == k by {
                assert(kinds_recorded(self.model()));
                match m[k].tile_type {
                    TileType::Object => {
                        assert(self.object_ids.member(k));
                        assert(e1.contains(k));
                        assert(e2.contains(k));
                        assert(e3.contains(k));
                    },
                    TileType::Arrow { .. } => {
                        assert(self.arrow_ids.member(k));
                        assert(e2.contains(k));
                        assert(e3.contains(k));
                    },
                    TileType::Descriptor { .. } => {
                        assert(self.descriptor_ids.member(k));
                        assert(e3.contains(k));
                    },
                    TileType::Extension { .. } => assert(self.extension_ids.member(k)),
                }
                assert(emitted@.contains(k));
            }
            assert(lists_tiles(listed, m));
        }
        let r = save_mosaic(&self.registry.component_definitions, out);
        r
    }
}

/// Loading one run of steps and then another is loading them all.
pub proof fn lemma_after_steps_concat(
    v: MosaicView,
    offset: EntityId,
    reg: ComponentRegistry,
    a: Seq<LoadStep>,
    b: Seq<LoadStep>,
)
    ensures
        after_steps(v, offset, reg, a + b) == after_steps(after_steps(v, offset, reg, a), offset, reg, b),
    decreases b.len(),
{
    if b.len() == 0 {
        assert(a + b =~= a);
    } else {
        assert((a + b).drop_last() =~= a + b.drop_last());
        assert((a + b).last() == b.last());
        lemma_after_steps_concat(v, offset, reg, a, b.drop_last());
    }
}

/// Definitions change nothing (loading asks for their types to be known).
pub proof fn lemma_add_steps_change_nothing(v: MosaicView, offset: EntityId, reg: ComponentRegistry, ds: Seq<Seq<char>>)
    ensures
        after_steps(v, offset, reg, add_steps(ds)) == v,
    decreases ds.len(),
{
    if ds.len() > 0 {
        assert(add_steps(ds).drop_last() =~= add_steps(ds.drop_last()));
        lemma_add_steps_change_nothing(v, offset, reg, ds.drop_last());
    }
}

/// The tile a saved tile record is loaded as, with no shift.
pub open spec fn frame_entry(reg: ComponentRegistry, f: TileFrame) -> TileEntry {
    TileEntry {
        tile_type: TileType::spec_from_endpoints(f.id, f.source, f.target),
        component: tile_name(f),
        data: f.data.take(layout_size(component_fields(reg, tile_name(f))) as int),
    }
}

/// Loading tile records that each give the tile `m` holds under their
/// identifier, into a mosaic with no tiles, gives exactly those tiles of `m`.
proof fn lemma_creates_rebuild(v: MosaicView, reg: ComponentRegistry, fs: Seq<TileFrame>, m: Map<EntityId, TileEntry>)
    requires
        v.tiles == Map::<EntityId, TileEntry>::empty(),
        forall|i: int| 0 <= i < fs.len() ==> m.contains_key((#[trigger] fs[i]).id) && frame_entry(reg, fs[i]) == m[fs[i].id],
    ensures
        forall|k: EntityId| #[trigger] after_steps(v, 0, reg, create_steps(fs)).tiles.contains_key(k)
            <==> exists|i: int| 0 <= i < fs.len() && #[trigger] fs[i].id == k,
        forall|k: EntityId| #[trigger] after_steps(v, 0, reg, create_steps(fs)).tiles.contains_key(k)
            ==> after_steps(v, 0, reg, create_steps(fs)).tiles[k] == m[k],
    decreases fs.len(),
{
    let u = after_steps(v, 0, reg, create_steps(fs));
    if fs.len() > 0 {
        let fs0 = fs.drop_last();
        assert(create_steps(fs).drop_last() =~= create_steps(fs0));
        assert forall|i: int| 0 <= i < fs0.len() implies m.contains_key((#[trigger] fs0[i]).id) && frame_entry(reg, fs0[i]) == m[fs0[i].id] by {
            assert(fs0[i] == fs[i]);
        }
        lemma_creates_rebuild(v, reg, fs0, m);
        let w = after_steps(v, 0, reg, create_steps(fs0));
        let f = fs.last();
        assert(fs[fs.len() - 1] == f);
        assert(shifted(f.id, 0) == f.id);
        assert(shifted(f.source, 0) == f.source);
        assert(shifted(f.target, 0) == f.target);
        assert(u.tiles == w.tiles.insert(f.id, m[f.id]));
        assert forall|k: EntityId| #[trigger] u.tiles.contains_key(k) <==> exists|i: int| 0 <= i < fs.len() && #[trigger] fs[i].id == k by {
            if w.tiles.contains_key(k) {
                let i = choose|i: int| 0 <= i < fs0.len() && #[trigger] fs0[i].id == k;
                assert(fs[i] == fs0[i]);
            }
            if exists|i: int| 0 <= i < fs.len() && #[trigger] fs[i].id == k {
                let i = choose|i: int| 0 <= i < fs.len() && #[trigger] fs[i].id == k;
                if i < fs0.len() {
                    assert(fs0[i] == fs[i]);
                }
            }
        }
    } else {
        assert forall|k: EntityId| #[trigger] u.tiles.contains_key(k) <==> exists|i: int| 0 <= i < fs.len() && #[trigger] fs[i].id == k by {}
    }
}

/// A saved record of a tile of `m` is loaded back as that tile.
proof fn lemma_frame_gives_back(reg: ComponentRegistry, m: Map<EntityId, TileEntry>, t: SavedTile)
    requires
        saved_from(t, m),
        saves_back(reg, t.id, m[t.id]),
    ensures
        frame_entry(reg, saved_frame(t)) == m[t.id],
        tile_name(saved_frame(t)) == m[t.id].component,
{
    let e = m[t.id];
    crate::tile::lemma_endpoints_round_trip(e.tile_type, t.id);
    encode_utf8_decode_utf8(saved_name(t));
    assert(tile_name(saved_frame(t)) == e.component);
    assert(e.data.take(e.data.len() as int) =~= e.data);
}

/// Each record saved in `order` (a reordering of `tiles`, which lists the
/// tiles of `m`) is a tile of `m`.
proof fn lemma_records_are_tiles(m: Map<EntityId, TileEntry>, tiles: Seq<SavedTile>, order: Seq<SavedTile>)
    requires
        lists_tiles(tiles, m),
        forall|k: EntityId| #[trigger] with_id(order, k) == with_id(tiles, k),
    ensures
        forall|i: int| 0 <= i < order.len() ==> saved_from(#[trigger] order[i], m),
{
    assert forall|i: int| 0 <= i < order.len() implies saved_from(#[trigger] order[i], m) by {
        let t = order[i];
        order.lemma_filter_contains(crate::mosaic_io::has_id(t.id), i);
        assert(with_id(order, t.id).contains(t));
        assert(with_id(order, t.id) == with_id(tiles, t.id));
        assert(with_id(tiles, t.id).contains(t));
        tiles.lemma_filter_contains_rev(crate::mosaic_io::has_id(t.id), t);
        let j = choose|j: int| 0 <= j < tiles.len() && tiles[j] == t;
        assert(saved_from(tiles[j], m));
    }
}

/// Each record saved in `order` is loaded back as the tile `m` holds under
/// its identifier.
proof fn lemma_records_give_back(reg: ComponentRegistry, m: Map<EntityId, TileEntry>, order: Seq<SavedTile>)
    requires
        forall|i: int| 0 <= i < order.len() ==> saved_from(#[trigger] order[i], m),
        forall|k: EntityId| #[trigger] m.contains_key(k) ==> saves_back(reg, k, m[k]),
    ensures
        forall|i: int| 0 <= i < saved_frames(order).len() ==> m.contains_key((#[trigger] saved_frames(order)[i]).id)
            && frame_entry(reg, saved_frames(order)[i]) == m[saved_frames(order)[i].id]
            && saved_frames(order)[i].data == m[saved_frames(order)[i].id].data
            && tile_name(saved_frames(order)[i]) == m[saved_frames(order)[i].id].component,
{
    let frames = saved_frames(order);
    assert forall|i: int| 0 <= i < frames.len() implies m.contains_key((#[trigger] frames[i]).id)
        && frame_entry(reg, frames[i]) == m[frames[i].id]
        && frames[i].data == m[frames[i].id].data
        && tile_name(frames[i]) == m[frames[i].id].component by {
        let t = order[i];
        assert(saved_from(t, m));
        assert(frames[i] == saved_frame(t));
        lemma_frame_gives_back(reg, m, t);
    }
}

/// Every tile of `m` has a record in `order`.
proof fn lemma_records_cover(m: Map<EntityId, TileEntry>, tiles: Seq<SavedTile>, order: Seq<SavedTile>)
    requires
        lists_tiles(tiles, m),
        forall|k: EntityId| #[trigger] with_id(order, k) == with_id(tiles, k),
    ensures
        forall|k: EntityId| #[trigger] m.contains_key(k) ==> exists|i: int| 0 <= i < order.len() && #[trigger] order[i].id == k,
{
    assert forall|k: EntityId| #[trigger] m.contains_key(k) implies exists|i: int| 0 <= i < order.len() && #[trigger] order[i].id == k by {
        let j = choose|j: int| 0 <= j < tiles.len() && #[trigger] tiles[j].id == k;
        tiles.lemma_filter_contains(crate::mosaic_io::has_id(k), j);
        assert(with_id(tiles, k).contains(tiles[j]));
        assert(with_id(order, k) == with_id(tiles, k));
        assert(with_id(order, k).contains(tiles[j]));
        order.lemma_filter_contains_rev(crate::mosaic_io::has_id(k), tiles[j]);
        let i = choose|i: int| 0 <= i < order.len() && order[i] == tiles[j];
        assert(order[i].id == k);
    }
}

/// Loading definitions and then records that give back tiles of `m` (whose
/// data fit their components) never fails.
proof fn lemma_no_step_fails(reg: ComponentRegistry, m: Map<EntityId, TileEntry>, defs: Seq<Seq<char>>, frames: Seq<TileFrame>)
    requires
        forall|i: int| 0 <= i < frames.len() ==> m.contains_key((#[trigger] frames[i]).id)
            && frames[i].data == m[frames[i].id].data && tile_name(frames[i]) == m[frames[i].id].component,
        forall|k: EntityId| #[trigger] m.contains_key(k) ==> saves_back(reg, k, m[k]),
    ensures
        none_fail_before(reg, add_steps(defs) + create_steps(frames), (add_steps(defs) + create_steps(frames)).len() as int),
{
    let adds = add_steps(defs);
    let creates = create_steps(frames);
    let steps = adds + creates;
    assert forall|j: int| 0 <= j < steps.len() implies !step_fails(reg, #[trigger] steps[j]) by {
        if j < adds.len() {
            assert(steps[j] == adds[j]);
        } else {
            let i = j - adds.len();
            let f = frames[i];
            assert(steps[j] == creates[i]);
            assert(creates[i] == LoadStep::CreateTile(f.id, f.source, f.target, tile_name(f), f.data));
            assert(m.contains_key(f.id) && f.data == m[f.id].data && tile_name(f) == m[f.id].component);
            assert(saves_back(reg, f.id, m[f.id]));
        }
    }
}

/// A tile that comes back whole from saving and loading: its data are the
/// bytes its component's fields take and fit a saved record, its component
/// name is a padded name of at most 32 bytes, and none of its endpoints is
/// the tile itself.
pub open spec fn saves_back(reg: ComponentRegistry, k: EntityId, e: TileEntry) -> bool {
    &&& e.data.len() < 0x1_0000_0000
    &&& e.data.len() == layout_size(component_fields(reg, e.component))
    &&& encode_utf8(without_nul(e.component)).len() <= 32
    &&& fixed32_text(without_nul(e.component)) == e.component
    &&& points_away(e.tile_type, k)
}

/// The records of a saved mosaic: the definitions and the tile records its
/// bytes load as, each record a tile of `m`, and every tile of `m` recorded.
proof fn lemma_saved_records(definitions: Seq<String>, m: Map<EntityId, TileEntry>, bytes: Seq<u8>, reg: ComponentRegistry) -> (r: (
    Seq<SavedTile>,
    Seq<Seq<char>>,
))
    requires
        saves_as(definitions, m, bytes),
        forall|i: int| 0 <= i < definitions.len() ==> 0 < #[trigger] encode_utf8(definitions[i]@).len() < 0x1_0000,
        forall|k: EntityId| #[trigger] m.contains_key(k) ==> saves_back(reg, k, m[k]),
    ensures
        loadable(bytes),
        loaded(bytes) == add_steps(r.1) + create_steps(saved_frames(r.0)),
        forall|i: int| 0 <= i < r.0.len() ==> saved_from(#[trigger] r.0[i], m),
        forall|k: EntityId| #[trigger] m.contains_key(k) ==> exists|i: int| 0 <= i < r.0.len() && #[trigger] r.0[i].id == k,
{
    let (tiles, defs, order) = choose|tiles: Seq<SavedTile>, defs: Seq<String>, order: Seq<SavedTile>| {
        &&& lists_tiles(tiles, m)
        &&& texts_of(defs).no_duplicates()
        &&& (forall|i: int, j: int| 0 <= i < j < defs.len() ==> text_le(#[trigger] defs[i]@, #[trigger] defs[j]@))
        &&& texts_of(defs).to_set() == texts_of(definitions).filter(defines_saved_type(tiles)).to_set()
        &&& ids_ascending(order)
        &&& (forall|k: EntityId| #[trigger] with_id(order, k) == with_id(tiles, k))
        &&& bytes == saved_bytes(texts_of(defs), order)
    };
    assert forall|i: int| 0 <= i < tiles.len() implies #[trigger] tiles[i].data@.len() < 0x1_0000_0000
        && encode_utf8(saved_name(tiles[i])).len() <= 32 by {
        assert(saved_from(tiles[i], m));
        assert(saves_back(reg, tiles[i].id, m[tiles[i].id]));
    }
    crate::mosaic_io::lemma_save_mosaic_loads(definitions, tiles, defs, order);
    lemma_records_are_tiles(m, tiles, order);
    lemma_records_cover(m, tiles, order);
    (order, texts_of(defs))
}

/// Law: a mosaic saved and loaded into a mosaic with no tiles (whose registry
/// knows the types) comes back: loading succeeds and gives the same tiles
/// under the same identifiers, with the same kinds, components and data.
pub proof fn lemma_saved_state_loads(
    definitions: Seq<String>,
    m: Map<EntityId, TileEntry>,
    reg: ComponentRegistry,
    bytes: Seq<u8>,
    before: MosaicView,
    ok: bool,
    after: MosaicView,
)
    requires
        saves_as(definitions, m, bytes),
        forall|i: int| 0 <= i < definitions.len() ==> 0 < #[trigger] encode_utf8(definitions[i]@).len() < 0x1_0000,
        forall|k: EntityId| #[trigger] m.contains_key(k) ==> saves_back(reg, k, m[k]),
        before.tiles == Map::<EntityId, TileEntry>::empty(),
        load_outcome(before, 0, reg, loaded(bytes), ok, after),
    ensures
        loadable(bytes),
        ok,
        after.tiles == m,
{
    let (order, ds) = lemma_saved_records(definitions, m, bytes, reg);
    lemma_records_give_back(reg, m, order);
    lemma_records_load_ok(reg, m, ds, saved_frames(order), loaded(bytes), before, ok, after);
    lemma_records_load_tiles(reg, m, ds, order, loaded(bytes), before, after);
}

/// Loading the records of the tiles of `m` never fails.
proof fn lemma_records_load_ok(
    reg: ComponentRegistry,
    m: Map<EntityId, TileEntry>,
    ds: Seq<Seq<char>>,
    frames: Seq<TileFrame>,
    steps: Seq<LoadStep>,
    before: MosaicView,
    ok: bool,
    after: MosaicView,
)
    requires
        steps == add_steps(ds) + create_steps(frames),
        forall|i: int| 0 <= i < frames.len() ==> m.contains_key((#[trigger] frames[i]).id)
            && frames[i].data == m[frames[i].id].data && tile_name(frames[i]) == m[frames[i].id].component,
        forall|k: EntityId| #[trigger] m.contains_key(k) ==> saves_back(reg, k, m[k]),
        load_outcome(before, 0, reg, steps, ok, after),
    ensures
        ok,
{
    lemma_no_step_fails(reg, m, ds, frames);
}

/// Loading the records of the tiles of `m` into a mosaic with no tiles,
/// without failing, gives the tiles of `m`.
proof fn lemma_records_load_tiles(
    reg: ComponentRegistry,
    m: Map<EntityId, TileEntry>,
    ds: Seq<Seq<char>>,
    order: Seq<SavedTile>,
    steps: Seq<LoadStep>,
    before: MosaicView,
    after: MosaicView,
)
    requires
        steps == add_steps(ds) + create_steps(saved_frames(order)),
        before.tiles == Map::<EntityId, TileEntry>::empty(),
        after == after_steps(before, 0, reg, steps),
        forall|i: int| 0 <= i < saved_frames(order).len() ==> m.contains_key((#[trigger] saved_frames(order)[i]).id)
            && frame_entry(reg, saved_frames(order)[i]) == m[saved_frames(order)[i].id],
        forall|k: EntityId| #[trigger] m.contains_key(k) ==> exists|i: int| 0 <= i < order.len() && #[trigger] order[i].id == k,
    ensures
        after.tiles == m,
{
    let frames = saved_frames(order);
    let creates = create_steps(frames);
    lemma_after_steps_concat(before, 0, reg, add_steps(ds), creates);
    lemma_add_steps_change_nothing(before, 0, reg, ds);
    lemma_creates_rebuild(before, reg, frames, m);
    assert forall|k: EntityId| #[trigger] after.tiles.contains_key(k) <==> m.contains_key(k) by {
        if m.contains_key(k) {
            let i = choose|i: int| 0 <= i < order.len() && #[trigger] order[i].id == k;
            assert(frames[i].id == k);
        }
        if after.tiles.contains_key(k) {
            let i = choose|i: int| 0 <= i < frames.len() && #[trigger] frames[i].id == k;
            assert(m.contains_key(frames[i].id));
        }
    }
    assert(after.tiles =~= m);
}

/// Every tile's identifier is in the set of its kind.
pub open spec fn kinds_recorded(v: MosaicView) -> bool {
    forall|k: EntityId| #[trigger] v.tiles.contains_key(k) ==> match v.tiles[k].tile_type {
        TileType::Object => v.objects.contains(k),
        TileType::Arrow { .. } => v.arrows.contains(k),
        TileType::Descriptor { .. } => v.descriptors.contains(k),
        TileType::Extension { .. } => v.extensions.contains(k),
    }
}

/// Putting a tile in place keeps every tile's identifier in the set of its kind.
pub proof fn lemma_placed_keeps_kinds_recorded(v: MosaicView, i: EntityId, e: TileEntry)
    requires
        kinds_recorded(v),
    ensures
        kinds_recorded(placed(v, i, e)),
{
    let u = placed(v, i, e);
    assert forall|k: EntityId| #[trigger] u.tiles.contains_key(k) implies match u.tiles[k].tile_type {
        TileType::Object => u.objects.contains(k),
        TileType::Arrow { .. } => u.arrows.contains(k),
        TileType::Descriptor { .. } => u.descriptors.contains(k),
        TileType::Extension { .. } => u.extensions.contains(k),
    } by {
        if k != i {
            assert(v.tiles.contains_key(k));
            assert(u.tiles[k] == v.tiles[k]);
        }
    }
}

/// Loading keeps every tile's identifier in the set of its kind.
pub proof fn lemma_load_keeps_kinds_recorded(v: MosaicView, offset: EntityId, reg: ComponentRegistry, steps: Seq<LoadStep>)
    requires
        kinds_recorded(v),
    ensures
        kinds_recorded(after_steps(v, offset, reg, steps)),
    decreases steps.len(),
{
    if steps.len() > 0 {
        lemma_load_keeps_kinds_recorded(v, offset, reg, steps.drop_last());
        let w = after_steps(v, offset, reg, steps.drop_last());
        let u = after_steps(v, offset, reg, steps);
        assert(u == after_step(w, offset, reg, steps.last()));
        assert forall|k: EntityId| #[trigger] u.tiles.contains_key(k) implies match u.tiles[k].tile_type {
            TileType::Object => u.objects.contains(k),
            TileType::Arrow { .. } => u.arrows.contains(k),
            TileType::Descriptor { .. } => u.descriptors.contains(k),
            TileType::Extension { .. } => u.extensions.contains(k),
        } by {
            if let LoadStep::CreateTile(id, source, target, component, data) = steps.last() {
                let i = shifted(id, offset);
                if k != i {
                    assert(w.tiles.contains_key(k));
                    assert(u.tiles[k] == w.tiles[k]);
                }
            }
        }
    }
}

/// Loading keeps every tile there before, unless a loaded tile takes its
/// identifier: the tiles after are the tiles before with the loaded ones put
/// over them.
pub proof fn lemma_load_keeps_other_tiles(
    v: MosaicView,
    offset: EntityId,
    reg: ComponentRegistry,
    steps: Seq<LoadStep>,
    k: EntityId,
)
    requires
        v.tiles.contains_key(k),
        forall|j: int| 0 <= j < steps.len() ==> match #[trigger] steps[j] {
            LoadStep::CreateTile(id, _, _, _, _) => shifted(id, offset) != k,
            LoadStep::AddType(_) => true,
        },
    ensures
        after_steps(v, offset, reg, steps).tiles.contains_key(k),
        after_steps(v, offset, reg, steps).tiles[k] == v.tiles[k],
    decreases steps.len(),
{
    if steps.len() > 0 {
        assert forall|j: int| 0 <= j < steps.drop_last().len() implies match #[trigger] steps.drop_last()[j] {
            LoadStep::CreateTile(id, _, _, _, _) => shifted(id, offset) != k,
            LoadStep::AddType(_) => true,
        } by {
            assert(steps.drop_last()[j] == steps[j]);
        }
        lemma_load_keeps_other_tiles(v, offset, reg, steps.drop_last(), k);
        assert(steps.last() == steps[steps.len() - 1]);
    }
}

} // verus!
