//! Collages: composable descriptions of selections of tiles.
use vstd::prelude::*;

use crate::sparse_set::EntityId;

verus! {

broadcast use vstd::string::group_string_axioms;

/// What to pick from the tiles of a collage.
#[derive(Debug, Clone, Copy)]
pub enum Pick {
    Arrows,
    Descriptors,
    Extensions,
    Targets,
    Sources,
}

/// Which tiles of a collage to keep.
#[derive(Debug, Clone)]
pub enum Cut {
    Include(Vec<String>),
    Exclude(Vec<String>),
    Objects,
    Arrows,
    Descriptors,
    Extensions,
}

impl Cut {
    /// The code of the cut's kind.
    pub open spec fn code(&self) -> u8 {
        match self {
            Cut::Include(_) => 0,
            Cut::Exclude(_) => 1,
            Cut::Objects => 2,
            Cut::Arrows => 3,
            Cut::Descriptors => 4,
            Cut::Extensions => 5,
        }
    }

    /// The code of the cut's kind.
    pub fn into_u8(&self) -> (c: u8)
        ensures
            c == self.code(),
    {
        match self {
            Cut::Include(_) => 0,
            Cut::Exclude(_) => 1,
            Cut::Objects => 2,
            Cut::Arrows => 3,
            Cut::Descriptors => 4,
            Cut::Extensions => 5,
        }
    }
}

/// A selection of tiles: given tiles (all when `None`), the union of several
/// selections, or a pick or cut applied to a selection.
#[derive(Debug)]
pub enum Collage {
    Tiles(Option<Vec<EntityId>>),
    Gather(Vec<Box<Collage>>),
    Pick(Pick, Box<Collage>),
    Cut(Cut, Box<Collage>),
}

/// Component names as text.
pub open spec fn names_view(v: Seq<String>) -> Seq<Seq<char>> {
    v.map_values(|s: String| s@)
}

/// Component names given as string slices, as text.
pub open spec fn strs_view(v: Seq<&str>) -> Seq<Seq<char>> {
    v.map_values(|s: &str| s@)
}

/// Owned copies of the given names.
fn owned_names(comps: &[&str]) -> (r: Vec<String>)
    ensures
        names_view(r@) == strs_view(comps@),
{
    let mut r: Vec<String> = Vec::new();
    let mut i: usize = 0;
    while i < comps.len()
        invariant
            i <= comps@.len(),
            r@.len() == i,
            names_view(r@) == strs_view(comps@.take(i as int)),
        decreases comps@.len() - i,
    {
        let s = comps[i].to_owned();
        assert(s@ == comps@[i as int]@);
        let ghost before = r@;
        r.push(s);
        assert(r@ == before.push(s));
        assert forall|j: int| 0 <= j < i + 1 implies names_view(r@)[j] == strs_view(comps@.take(i + 1))[j] by {
            if j < i {
                assert(names_view(before)[j] == strs_view(comps@.take(i as int))[j]);
            }
        }
        assert(names_view(r@) =~= strs_view(comps@.take(i + 1)));
        i = i + 1;
    }
    assert(comps@.take(comps@.len() as int) =~= comps@);
    r
}

/// Every tile.
pub fn all_tiles() -> (c: Box<Collage>)
    ensures
        *c == Collage::Tiles(None),
{
    Box::new(Collage::Tiles(None))
}

/// The arrows of the selected tiles.
pub fn arrows_from(mq: Box<Collage>) -> (c: Box<Collage>)
    ensures
        *c == Collage::Pick(Pick::Arrows, mq),
{
    Box::new(Collage::Pick(Pick::Arrows, mq))
}

/// The descriptors of the selected tiles.
pub fn descriptors_from(mq: Box<Collage>) -> (c: Box<Collage>)
    ensures
        *c == Collage::Pick(Pick::Descriptors, mq),
{
    Box::new(Collage::Pick(Pick::Descriptors, mq))
}

/// The extensions of the selected tiles.
pub fn extensions_from(mq: Box<Collage>) -> (c: Box<Collage>)
    ensures
        *c == Collage::Pick(Pick::Extensions, mq),
{
    Box::new(Collage::Pick(Pick::Extensions, mq))
}

/// The targets of the selected tiles.
pub fn targets_from(mq: Box<Collage>) -> (c: Box<Collage>)
    ensures
        *c == Collage::Pick(Pick::Targets, mq),
{
    Box::new(Collage::Pick(Pick::Targets, mq))
}

/// The sources of the selected tiles.
pub fn sources_from(mq: Box<Collage>) -> (c: Box<Collage>)
    ensures
        *c == Collage::Pick(Pick::Sources, mq),
{
    Box::new(Collage::Pick(Pick::Sources, mq))
}

/// The selected tiles whose component is one of `comps`.
pub fn take_components(comps: &[&str], mq: Box<Collage>) -> (c: Box<Collage>)
    ensures
        match *c {
            Collage::Cut(Cut::Include(names), inner) => names_view(names@) == strs_view(comps@) && inner == mq,
            _ => false,
        },
{
    Box::new(Collage::Cut(Cut::Include(owned_names(comps)), mq))
}

/// The selected tiles whose component is none of `comps`.
pub fn leave_components(comps: &[&str], mq: Box<Collage>) -> (c: Box<Collage>)
    ensures
        match *c {
            Collage::Cut(Cut::Exclude(names), inner) => names_view(names@) == strs_view(comps@) && inner == mq,
            _ => false,
        },
{
    Box::new(Collage::Cut(Cut::Exclude(owned_names(comps)), mq))
}

/// The selected tiles that are arrows.
pub fn take_arrows(mq: Box<Collage>) -> (c: Box<Collage>)
    ensures
        *c == Collage::Cut(Cut::Arrows, mq),
{
    Box::new(Collage::Cut(Cut::Arrows, mq))
}

/// The selected tiles that are descriptors.
pub fn take_descriptors(mq: Box<Collage>) -> (c: Box<Collage>)
    ensures
        *c == Collage::Cut(Cut::Descriptors, mq),
{
    Box::new(Collage::Cut(Cut::Descriptors, mq))
}

/// The selected tiles that are extensions.
pub fn take_extensions(mq: Box<Collage>) -> (c: Box<Collage>)
    ensures
        *c == Collage::Cut(Cut::Extensions, mq),
{
    Box::new(Collage::Cut(Cut::Extensions, mq))
}

/// The selected tiles that are objects.
pub fn take_objects(mq: Box<Collage>) -> (c: Box<Collage>)
    ensures
        *c == Collage::Cut(Cut::Objects, mq),
{
    Box::new(Collage::Cut(Cut::Objects, mq))
}

/// The union of several selections.
pub fn gather(mqs: Vec<Box<Collage>>) -> (c: Box<Collage>)
    ensures
        *c == Collage::Gather(mqs),
{
    Box::new(Collage::Gather(mqs))
}

} // verus!
