//! The kinds of tiles in a mosaic.
use vstd::prelude::*;

use crate::sparse_set::EntityId;

verus! {

/// What a tile is: a lone object, an arrow between two tiles, or a
/// descriptor or extension of a subject tile.
#[derive(PartialEq, Eq, Structural, PartialOrd, Ord, Clone, Copy, Hash, Debug)]
pub enum TileType {
    Object,
    Arrow { source: EntityId, target: EntityId },
    Descriptor { subject: EntityId },
    Extension { subject: EntityId },
}

impl TileType {
    /// The source of the tile `id` of this type: the arrow's source, the
    /// extension's subject, or the tile itself.
    pub open spec fn spec_source(self, id: EntityId) -> EntityId {
        match self {
            TileType::Object => id,
            TileType::Arrow { source, .. } => source,
            TileType::Descriptor { .. } => id,
            TileType::Extension { subject } => subject,
        }
    }

    /// The target of the tile `id` of this type: the arrow's target, the
    /// descriptor's subject, or the tile itself.
    pub open spec fn spec_target(self, id: EntityId) -> EntityId {
        match self {
            TileType::Object => id,
            TileType::Arrow { target, .. } => target,
            TileType::Descriptor { subject } => subject,
            TileType::Extension { .. } => id,
        }
    }

    /// The type of a tile given by its identifier and endpoints: an object
    /// when both endpoints are the tile itself, a descriptor of the target
    /// when only the source is, an extension of the source when only the
    /// target is, and an arrow otherwise.
    pub open spec fn spec_from_endpoints(id: EntityId, source: EntityId, target: EntityId) -> TileType {
        if id == source && id == target {
            TileType::Object
        } else if id == source && source != target {
            TileType::Descriptor { subject: target }
        } else if id == target && source != target {
            TileType::Extension { subject: source }
        } else {
            TileType::Arrow { source, target }
        }
    }

    /// The source of the tile `id` of this type.
    pub fn source_id(&self, id: EntityId) -> (r: EntityId)
        ensures
            r == self.spec_source(id),
    {
        match self {
            TileType::Object => id,
            TileType::Arrow { source, .. } => *source,
            TileType::Descriptor { .. } => id,
            TileType::Extension { subject } => *subject,
        }
    }

    /// The target of the tile `id` of this type.
    pub fn target_id(&self, id: EntityId) -> (r: EntityId)
        ensures
            r == self.spec_target(id),
    {
        match self {
            TileType::Object => id,
            TileType::Arrow { target, .. } => *target,
            TileType::Descriptor { subject } => *subject,
            TileType::Extension { .. } => id,
        }
    }

    /// The type of a tile given by its identifier and endpoints (see `spec_from_endpoints`).
    pub fn from_endpoints(id: EntityId, source: EntityId, target: EntityId) -> (r: TileType)
        ensures
            r == TileType::spec_from_endpoints(id, source, target),
    {
        if id == source && id == target {
            TileType::Object
        } else if id == source && source != target {
            TileType::Descriptor { subject: target }
        } else if id == target && source != target {
            TileType::Extension { subject: source }
        } else {
            TileType::Arrow { source, target }
        }
    }
}

/// Whether no endpoint named by the type is the tile `id` itself.
pub open spec fn points_away(t: TileType, id: EntityId) -> bool {
    match t {
        TileType::Object => true,
        TileType::Arrow { source, target } => source != id && target != id,
        TileType::Descriptor { subject } => subject != id,
        TileType::Extension { subject } => subject != id,
    }
}

/// Law: a tile is told apart again from its identifier and endpoints, as long
/// as none of its endpoints is the tile itself.
pub proof fn lemma_endpoints_round_trip(t: TileType, id: EntityId)
    requires
        points_away(t, id),
    ensures
        TileType::spec_from_endpoints(id, t.spec_source(id), t.spec_target(id)) == t,
{
}

} // verus!
