//! The byte format a mosaic is saved in, and reading it back.
//!
//! A saved mosaic is a list of type definitions, each framed by its length as
//! two big-endian bytes and closed by a zero length, followed by the tiles up
//! to the end of the data. A tile is its identifier, source and target (eight
//! big-endian bytes each), the length of its component name (eight bytes),
//! the name, the length of its data (four bytes) and the data.
use vstd::arithmetic::power::pow;
use vstd::prelude::*;
use vstd::slice::{slice_subrange, slice_to_vec};
use vstd::utf8::{decode_utf8, encode_utf8, valid_utf8};

use crate::byte_utilities::{
    be_bytes, be_value, decode_be, encode_be, lemma_be_bytes_len, lemma_be_roundtrip,
    lemma_radix_powers, put_bytes, utf8_text,
};
use crate::datatypes::{fixed32_text, S32};
use crate::sparse_set::EntityId;
use crate::tile::TileType;
use crate::outside::{lemma_unique_spec, texts_sorted, texts_unique, unique_spec};
use crate::text::{
    before_colon, strip_nul, text_before_colon, text_le, texts_of, trim_text, trimmed, without_nul,
};

verus! {

broadcast use vstd::string::group_string_axioms;

/// An instruction read from a saved mosaic: define a component type, or
/// create a tile (identifier, source, target, component, data).
#[derive(Debug, Clone, PartialEq)]
pub enum MosaicLoadCommand {
    AddType(String),
    CreateTile(EntityId, EntityId, EntityId, S32, Vec<u8>),
}

/// A load command as plain values.
pub enum LoadStep {
    AddType(Seq<char>),
    CreateTile(EntityId, EntityId, EntityId, Seq<char>, Seq<u8>),
}

/// The plain values of a load command.
pub open spec fn step_of(c: MosaicLoadCommand) -> LoadStep {
    match c {
        MosaicLoadCommand::AddType(t) => LoadStep::AddType(t@),
        MosaicLoadCommand::CreateTile(id, src, tgt, name, data) => LoadStep::CreateTile(id, src, tgt, name.0@, data@),
    }
}

/// The plain values of a list of load commands.
pub open spec fn steps_of(v: Seq<MosaicLoadCommand>) -> Seq<LoadStep> {
    v.map_values(|c: MosaicLoadCommand| step_of(c))
}

/// A tile record of a saved mosaic, as its bytes give it.
pub struct TileFrame {
    pub id: EntityId,
    pub source: EntityId,
    pub target: EntityId,
    pub name: Seq<u8>,
    pub data: Seq<u8>,
}

/// The number given by the `n` big-endian bytes of `data` at `at`.
pub open spec fn be_at(data: Seq<u8>, at: int, n: int) -> nat {
    be_value(data.subrange(at, at + n))
}

/// The type definitions framed in `data` from `at` on, and where the frames
/// end (after the closing zero length); `None` when a frame runs past the end.
pub open spec fn read_types(data: Seq<u8>, at: int) -> Option<(Seq<Seq<u8>>, int)>
    decreases data.len() - at,
{
    if at < 0 || at + 2 > data.len() {
        None
    } else {
        let n = be_at(data, at, 2) as int;
        if n == 0 {
            Some((Seq::empty(), at + 2))
        } else if at + 2 + n > data.len() {
            None
        } else {
            match read_types(data, at + 2 + n) {
                Some(rest) => Some((seq![data.subrange(at + 2, at + 2 + n)] + rest.0, rest.1)),
                None => None,
            }
        }
    }
}

/// The tile at `at` in `data`, and where it ends; `None` when it runs past the end.
pub open spec fn read_tile(data: Seq<u8>, at: int) -> Option<(TileFrame, int)> {
    if at < 0 || at + 32 > data.len() {
        None
    } else {
        let name_len = be_at(data, at + 24, 8) as usize as int;
        let p = at + 32 + name_len;
        if p + 4 > data.len() {
            None
        } else {
            let q = p + 4 + be_at(data, p, 4);
            if q > data.len() {
                None
            } else {
                Some((
                    TileFrame {
                        id: be_at(data, at, 8) as usize,
                        source: be_at(data, at + 8, 8) as usize,
                        target: be_at(data, at + 16, 8) as usize,
                        name: data.subrange(at + 32, p),
                        data: data.subrange(p + 4, q),
                    },
                    q,
                ))
            }
        }
    }
}

/// The tiles in `data` from `at` to the end; `None` when one runs past the end.
pub open spec fn read_tiles(data: Seq<u8>, at: int) -> Option<Seq<TileFrame>>
    decreases data.len() - at,
{
    if at < 0 || at >= data.len() {
        if at == data.len() {
            Some(Seq::empty())
        } else {
            None
        }
    } else {
        match read_tile(data, at) {
            Some(t) => if t.1 <= at {
                None
            } else {
                match read_tiles(data, t.1) {
                    Some(rest) => Some(seq![t.0] + rest),
                    None => None,
                }
            },
            None => None,
        }
    }
}

/// Whether `data` is a saved mosaic: its frames fit, and its definitions
/// and component names are UTF-8.
pub open spec fn loadable(data: Seq<u8>) -> bool {
    match read_types(data, 0) {
        Some(types) => match read_tiles(data, types.1) {
            Some(tiles) => {
                &&& forall|i: int| 0 <= i < types.0.len() ==> valid_utf8(#[trigger] types.0[i])
                &&& forall|i: int| 0 <= i < tiles.len() ==> valid_utf8(#[trigger] tiles[i].name)
            },
            None => false,
        },
        None => false,
    }
}

/// The component name a tile is loaded with.
pub open spec fn tile_name(f: TileFrame) -> Seq<char> {
    fixed32_text(decode_utf8(f.name))
}

/// The names of the component types the tiles use.
pub open spec fn used_types(tiles: Seq<TileFrame>) -> Seq<Seq<char>> {
    tiles.map_values(|f: TileFrame| trimmed(without_nul(tile_name(f))))
}

/// Whether some tile uses the type a definition defines (a definition names
/// its type before its first colon).
pub open spec fn defines_used_type(tiles: Seq<TileFrame>) -> spec_fn(Seq<char>) -> bool {
    |t: Seq<char>| used_types(tiles).contains(before_colon(t))
}

/// The definitions of the types that some tile uses.
pub open spec fn kept_types(defs: Seq<Seq<char>>, tiles: Seq<TileFrame>) -> Seq<Seq<char>> {
    defs.filter(defines_used_type(tiles))
}

/// One type definition per definition.
pub open spec fn add_steps(defs: Seq<Seq<char>>) -> Seq<LoadStep> {
    defs.map_values(|t: Seq<char>| LoadStep::AddType(t))
}

/// One tile creation per tile.
pub open spec fn create_steps(tiles: Seq<TileFrame>) -> Seq<LoadStep> {
    tiles.map_values(|f: TileFrame| LoadStep::CreateTile(f.id, f.source, f.target, tile_name(f), f.data))
}

/// The commands that load the definitions `defs` and the tiles `tiles`: the
/// definitions of the types in use, in order, then one tile creation per tile.
pub open spec fn load_steps(defs: Seq<Seq<char>>, tiles: Seq<TileFrame>) -> Seq<LoadStep> {
    add_steps(kept_types(defs, tiles)) + create_steps(tiles)
}

/// The texts whose UTF-8 encodings are the given byte strings.
pub open spec fn decoded_texts(v: Seq<Seq<u8>>) -> Seq<Seq<char>> {
    v.map_values(|d: Seq<u8>| decode_utf8(d))
}

/// The commands a saved mosaic holds.
pub open spec fn loaded(data: Seq<u8>) -> Seq<LoadStep> {
    let types = read_types(data, 0)->0;
    load_steps(decoded_texts(types.0), read_tiles(data, types.1)->0)
}

/// Whether `names` holds `name`.
fn contains_text(names: &Vec<String>, name: &String) -> (b: bool)
    ensures
        b == texts_of(names@).contains(name@),
{
    let mut i: usize = 0;
    while i < names.len()
        invariant
            i <= names@.len(),
            forall|j: int| 0 <= j < i ==> names@[j]@ != name@,
        decreases names@.len() - i,
    {
        if names[i] == *name {
            assert(texts_of(names@)[i as int] == name@);
            return true;
        }
        i = i + 1;
    }
    proof {
        if texts_of(names@).contains(name@) {
            let k = choose|k: int| 0 <= k < names@.len() && #[trigger] texts_of(names@)[k] == name@;
            assert(names@[k]@ == name@);
        }
    }
    false
}

/// Reads the commands of a saved mosaic: the definitions of the component
/// types its tiles use, then the tiles.
pub fn load_mosaic_commands(data: &[u8]) -> (r: Result<Vec<MosaicLoadCommand>, anyhow::Error>)
    requires
        loadable(data@),
    ensures
        r matches Ok(cmds) && steps_of(cmds@) == loaded(data@),
{
    broadcast use vstd::utf8::group_utf8_lib;

    let ghost types = read_types(data@, 0)->0;
    let ghost tiles = read_tiles(data@, types.1)->0;
    proof {
        lemma_radix_powers();
    }
    let total = data.len();
    // The type definitions.
    let mut defs: Vec<String> = Vec::new();
    let ghost mut seen: Seq<Seq<u8>> = Seq::empty();
    let mut p: usize = 0;
    loop
        invariant_except_break
            p <= data@.len(),
            read_types(data@, p as int) is Some,
            types.0 == seen + (read_types(data@, p as int)->0).0,
            (read_types(data@, p as int)->0).1 == types.1,
        invariant
            types == read_types(data@, 0)->0,
            tiles == read_tiles(data@, types.1)->0,
            loadable(data@),
            total == data@.len(),
            texts_of(defs@) == decoded_texts(seen),
        ensures
            p == types.1,
            seen == types.0,
        decreases data@.len() - p,
    {
        assert(p + 2 <= data@.len());
        proof {
            lemma_radix_powers();
            crate::byte_utilities::lemma_be_value_bound(data@.subrange(p as int, p + 2));
        }
        let n = decode_be(slice_subrange(data, p, p + 2)) as usize;
        assert(n == be_at(data@, p as int, 2));
        if n == 0 {
            p = p + 2;
            assert(seen + Seq::<Seq<u8>>::empty() =~= seen);
            break;
        }
        let q = p + 2 + n;
        let frame = slice_subrange(data, p + 2, q);
        let ghost rest = read_types(data@, q as int)->0;
        assert(types.0 == (seen + seq![frame@]) + rest.0) by {
            assert(seen + (seq![frame@] + rest.0) =~= (seen + seq![frame@]) + rest.0);
        }
        assert(types.0[seen.len() as int] == frame@);
        let text = utf8_text(frame);
        assert(decode_utf8(frame@) == text@) by {
            vstd::utf8::encode_utf8_decode_utf8(text@);
        }
        let ghost before = defs@;
        defs.push(text);
        proof {
            assert(defs@ == before.push(text));
            assert(texts_of(defs@) =~= texts_of(before).push(text@));
            assert(decoded_texts(seen + seq![frame@]) =~= decoded_texts(seen).push(decode_utf8(frame@)));
            seen = seen + seq![frame@];
        }
        p = q;
    }
    // The tiles.
    let mut creates: Vec<MosaicLoadCommand> = Vec::new();
    let mut used: Vec<String> = Vec::new();
    let ghost mut read: Seq<TileFrame> = Seq::empty();
    while p < total
        invariant
            p <= data@.len(),
            total == data@.len(),
            read_tiles(data@, p as int) is Some,
            tiles == read + (read_tiles(data@, p as int)->0),
            tiles == read_tiles(data@, types.1)->0,
            types == read_types(data@, 0)->0,
            loadable(data@),
            texts_of(defs@) == decoded_texts(types.0),
            steps_of(creates@) == create_steps(read),
            texts_of(used@) == used_types(read),
        decreases data@.len() - p,
    {
        let ghost t = read_tile(data@, p as int)->0;
        proof {
            lemma_radix_powers();
            crate::byte_utilities::lemma_be_value_bound(data@.subrange(p + 24, p + 32));
        }
        assert(p + 32 <= total);
        let id = decode_be(slice_subrange(data, p, p + 8)) as usize;
        let source = decode_be(slice_subrange(data, p + 8, p + 16)) as usize;
        let target = decode_be(slice_subrange(data, p + 16, p + 24)) as usize;
        let name_len = decode_be(slice_subrange(data, p + 24, p + 32)) as usize;
        assert(name_len == be_at(data@, p + 24, 8) as usize);
        let a = p + 32;
        assert(a + name_len + 4 <= total);
        let b = a + name_len;
        let name_bytes = slice_subrange(data, a, b);
        proof {
            crate::byte_utilities::lemma_be_value_bound(data@.subrange(b as int, b + 4));
        }
        let data_len = decode_be(slice_subrange(data, b, b + 4)) as usize;
        assert(data_len == be_at(data@, b as int, 4));
        let c = b + 4;
        assert(c + data_len <= total);
        let d = c + data_len;
        let payload = slice_to_vec(slice_subrange(data, c, d));
        assert(tiles[read.len() as int] == t.0) by {
            assert(tiles == (read + seq![t.0]) + (read_tiles(data@, d as int)->0));
        }
        assert(valid_utf8(tiles[read.len() as int].name));
        let name = utf8_text(name_bytes);
        assert(decode_utf8(name_bytes@) == name@) by {
            vstd::utf8::encode_utf8_decode_utf8(name@);
        }
        let component = S32::from_text(name.as_str());
        let shown = component.to_string();
        assert(shown@ == trimmed(without_nul(tile_name(t.0))));
        assert(step_of(MosaicLoadCommand::CreateTile(id, source, target, component, payload))
            == LoadStep::CreateTile(t.0.id, t.0.source, t.0.target, tile_name(t.0), t.0.data));
        let ghost creates0 = creates@;
        let ghost used0 = used@;
        creates.push(MosaicLoadCommand::CreateTile(id, source, target, component, payload));
        used.push(shown);
        proof {
            let rest = read_tiles(data@, d as int)->0;
            assert(tiles =~= (read + seq![t.0]) + rest);
            assert(steps_of(creates@) =~= steps_of(creates0).push(step_of(MosaicLoadCommand::CreateTile(id, source, target, component, payload))));
            assert(steps_of(creates@) =~= create_steps(read + seq![t.0]));
            assert(texts_of(used@) =~= texts_of(used0).push(shown@));
            assert(used_types(read + seq![t.0]) =~= used_types(read).push(trimmed(without_nul(tile_name(t.0)))));
            read = read + seq![t.0];
        }
        p = d;
    }
    assert(read =~= tiles) by {
        assert(read_tiles(data@, p as int)->0 =~= Seq::<TileFrame>::empty());
    }
    // The definitions of the types in use, then the tiles.
    let mut result: Vec<MosaicLoadCommand> = Vec::new();
    let ghost texts = decoded_texts(types.0);
    let ghost keep = defines_used_type(tiles);
    let mut i: usize = 0;
    while i < defs.len()
        invariant
            i <= defs@.len(),
            texts_of(defs@) == texts,
            texts_of(used@) == used_types(tiles),
            keep == defines_used_type(tiles),
            steps_of(result@) == add_steps(texts.take(i as int).filter(keep)),
        decreases defs@.len() - i,
    {
        let head = text_before_colon(defs[i].as_str());
        let ghost r0 = result@;
        assert(texts[i as int] == defs@[i as int]@);
        proof {
            assert(texts.take(i + 1) =~= texts.take(i as int).push(texts[i as int]));
            texts.take(i as int).lemma_filter_push(texts[i as int], keep);
        }
        if contains_text(&used, &head) {
            let def = defs[i].clone();
            result.push(MosaicLoadCommand::AddType(def));
            assert(steps_of(result@) =~= steps_of(r0).push(LoadStep::AddType(texts[i as int])));
            assert(add_steps(texts.take(i + 1).filter(keep)) =~= add_steps(texts.take(i as int).filter(keep)).push(LoadStep::AddType(texts[i as int])));
        } else {
            assert(!keep(texts[i as int]));
        }
        i = i + 1;
    }
    assert(texts.take(texts.len() as int) =~= texts);
    let ghost r1 = result@;
    let ghost c1 = creates@;
    result.append(&mut creates);
    assert(steps_of(result@) =~= steps_of(r1) + steps_of(c1));
    assert(steps_of(result@) =~= loaded(data@));
    Ok(result)
}

/// The name of the type a definition defines: the text before its first
/// colon, without surrounding white space, as a name.
pub fn defined_type_name(definition: &str) -> (r: S32)
    ensures
        r.0@ == fixed32_text(trimmed(before_colon(definition@))),
{
    let head = text_before_colon(definition);
    let name = trim_text(head.as_str());
    S32::from_text(name.as_str())
}

/// Where a loaded tile lands in a mosaic that already counts `offset`
/// identifiers: its identifier and endpoints are shifted by `offset`, and its
/// kind is told from the shifted identifier and endpoints.
pub fn placed_tile(offset: EntityId, id: EntityId, source: EntityId, target: EntityId) -> (r: (
    EntityId,
    TileType,
))
    requires
        id + offset <= usize::MAX,
        source + offset <= usize::MAX,
        target + offset <= usize::MAX,
    ensures
        r.0 == id + offset,
        r.1 == TileType::spec_from_endpoints(
            (id + offset) as EntityId,
            (source + offset) as EntityId,
            (target + offset) as EntityId,
        ),
{
    let id = id + offset;
    let source = source + offset;
    let target = target + offset;
    (id, TileType::from_endpoints(id, source, target))
}

/// A tile as it is saved: identifier, source, target, component and data.
pub struct SavedTile {
    pub id: EntityId,
    pub source: EntityId,
    pub target: EntityId,
    pub component: S32,
    pub data: Vec<u8>,
}

/// The bytes of one type definition: its UTF-8 length (two bytes) and its text.
pub open spec fn type_frame(def: Seq<char>) -> Seq<u8> {
    be_bytes(encode_utf8(def).len(), 2) + encode_utf8(def)
}

/// The frames of the type definitions, in order.
pub open spec fn type_frames(defs: Seq<Seq<char>>) -> Seq<u8>
    decreases defs.len(),
{
    if defs.len() == 0 {
        Seq::empty()
    } else {
        type_frame(defs[0]) + type_frames(defs.drop_first())
    }
}

/// The bytes of the type definitions, closed by a zero length.
pub open spec fn types_bytes(defs: Seq<Seq<char>>) -> Seq<u8> {
    type_frames(defs) + seq![0u8, 0u8]
}

/// The name a tile is saved under: its component name without padding.
pub open spec fn saved_name(t: SavedTile) -> Seq<char> {
    without_nul(t.component.0@)
}

/// The bytes of one tile.
pub open spec fn tile_bytes(t: SavedTile) -> Seq<u8> {
    be_bytes(t.id as nat, 8) + be_bytes(t.source as nat, 8) + be_bytes(t.target as nat, 8)
        + be_bytes(encode_utf8(saved_name(t)).len(), 8) + encode_utf8(saved_name(t))
        + be_bytes(t.data@.len(), 4) + t.data@
}

/// The bytes of the tiles, in order.
pub open spec fn tiles_bytes(tiles: Seq<SavedTile>) -> Seq<u8>
    decreases tiles.len(),
{
    if tiles.len() == 0 {
        Seq::empty()
    } else {
        tile_bytes(tiles[0]) + tiles_bytes(tiles.drop_first())
    }
}

/// The bytes a mosaic with the type definitions `defs` and the tiles `tiles` is saved as.
pub open spec fn saved_bytes(defs: Seq<Seq<char>>, tiles: Seq<SavedTile>) -> Seq<u8> {
    types_bytes(defs) + tiles_bytes(tiles)
}

/// Appending one definition appends its frame.
proof fn lemma_type_frames_push(defs: Seq<Seq<char>>, d: Seq<char>)
    ensures
        type_frames(defs.push(d)) == type_frames(defs) + type_frame(d),
    decreases defs.len(),
{
    if defs.len() == 0 {
        assert(defs.push(d).drop_first() =~= Seq::<Seq<char>>::empty());
        assert(type_frames(Seq::<Seq<char>>::empty()) == Seq::<u8>::empty());
        assert(type_frames(defs.push(d)) =~= type_frame(d));
    } else {
        lemma_type_frames_push(defs.drop_first(), d);
        assert(defs.push(d).drop_first() =~= defs.drop_first().push(d));
        assert(type_frame(defs[0]) + (type_frames(defs.drop_first()) + type_frame(d))
            =~= (type_frame(defs[0]) + type_frames(defs.drop_first())) + type_frame(d));
    }
}

/// Appending one tile appends its bytes.
proof fn lemma_tiles_bytes_push(tiles: Seq<SavedTile>, t: SavedTile)
    ensures
        tiles_bytes(tiles.push(t)) == tiles_bytes(tiles) + tile_bytes(t),
    decreases tiles.len(),
{
    if tiles.len() == 0 {
        assert(tiles.push(t).drop_first() =~= Seq::<SavedTile>::empty());
        assert(tiles_bytes(Seq::<SavedTile>::empty()) == Seq::<u8>::empty());
        assert(tiles_bytes(tiles.push(t)) =~= tile_bytes(t));
        assert(tiles_bytes(tiles) + tile_bytes(t) =~= tile_bytes(t));
    } else {
        lemma_tiles_bytes_push(tiles.drop_first(), t);
        assert(tiles.push(t).drop_first() =~= tiles.drop_first().push(t));
        assert(tile_bytes(tiles[0]) + (tiles_bytes(tiles.drop_first()) + tile_bytes(t))
            =~= (tile_bytes(tiles[0]) + tiles_bytes(tiles.drop_first())) + tile_bytes(t));
    }
}

/// Appends the big-endian bytes of `x` (the `n` lowest) to `out`.
fn put_be(out: &mut Vec<u8>, x: u64, n: usize)
    ensures
        final(out)@ == old(out)@ + be_bytes(x as nat, n as nat),
{
    let mut bytes = encode_be(x, n);
    out.append(&mut bytes);
}

/// The bytes a mosaic with the type definitions `definitions` and the tiles
/// `tiles` is saved as: each definition framed by its length (two bytes), a
/// zero length, then each tile.
pub fn save_mosaic_bytes(definitions: &Vec<String>, tiles: &Vec<SavedTile>) -> (r: Vec<u8>)
    ensures
        r@ == saved_bytes(texts_of(definitions@), tiles@),
{
    let mut out: Vec<u8> = Vec::new();
    let mut i: usize = 0;
    while i < definitions.len()
        invariant
            i <= definitions@.len(),
            out@ == type_frames(texts_of(definitions@.take(i as int))),
        decreases definitions@.len() - i,
    {
        let def = definitions[i].as_str();
        let bytes = def.as_bytes();
        let len = bytes.len();
        assert(bytes@ == encode_utf8(def@));
        assert(len == encode_utf8(def@).len());
        let ghost before = out@;
        put_be(&mut out, len as u64, 2);
        let ghost mid = out@;
        assert(mid == before + be_bytes(encode_utf8(def@).len(), 2));
        put_bytes(&mut out, bytes);
        proof {
            let prior = texts_of(definitions@.take(i as int));
            assert(texts_of(definitions@.take(i + 1)) =~= prior.push(def@));
            lemma_type_frames_push(prior, def@);
            assert(out@ =~= before + type_frame(def@));
        }
        i = i + 1;
    }
    assert(definitions@.take(definitions@.len() as int) =~= definitions@);
    put_be(&mut out, 0, 2);
    proof {
        reveal_with_fuel(be_bytes, 3);
        assert(be_bytes(0, 2) =~= seq![0u8, 0u8]);
    }
    let ghost head = out@;
    let mut j: usize = 0;
    while j < tiles.len()
        invariant
            j <= tiles@.len(),
            head == types_bytes(texts_of(definitions@)),
            out@ == head + tiles_bytes(tiles@.take(j as int)),
        decreases tiles@.len() - j,
    {
        let t = &tiles[j];
        let ghost before = out@;
        put_be(&mut out, t.id as u64, 8);
        put_be(&mut out, t.source as u64, 8);
        put_be(&mut out, t.target as u64, 8);
        let name = strip_nul(t.component.0.as_str());
        let bytes = name.as_str().as_bytes();
        assert(bytes@ == encode_utf8(saved_name(*t)));
        put_be(&mut out, bytes.len() as u64, 8);
        put_bytes(&mut out, bytes);
        put_be(&mut out, t.data.len() as u64, 4);
        put_bytes(&mut out, t.data.as_slice());
        proof {
            assert(tiles@.take(j + 1) =~= tiles@.take(j as int).push(*t));
            lemma_tiles_bytes_push(tiles@.take(j as int), *t);
            assert(out@ =~= before + tile_bytes(*t));
        }
        j = j + 1;
    }
    assert(tiles@.take(tiles@.len() as int) =~= tiles@);
    out
}

/// The names of the component types the saved tiles use.
pub open spec fn saved_types(tiles: Seq<SavedTile>) -> Seq<Seq<char>> {
    tiles.map_values(|t: SavedTile| trimmed(without_nul(t.component.0@)))
}

/// Whether some saved tile uses the type a definition defines.
pub open spec fn defines_saved_type(tiles: Seq<SavedTile>) -> spec_fn(Seq<char>) -> bool {
    |d: Seq<char>| saved_types(tiles).contains(before_colon(d))
}

/// Deduplicating an ascending sequence keeps it ascending.
proof fn lemma_unique_keeps_order(s: Seq<Seq<char>>)
    requires
        forall|i: int, j: int| 0 <= i < j < s.len() ==> text_le(#[trigger] s[i], #[trigger] s[j]),
    ensures
        forall|i: int, j: int| 0 <= i < j < unique_spec(s).len() ==> text_le(
            #[trigger] unique_spec(s)[i],
            #[trigger] unique_spec(s)[j],
        ),
    decreases s.len(),
{
    if s.len() > 0 {
        let rest = s.drop_last();
        assert forall|i: int, j: int| 0 <= i < j < rest.len() implies text_le(#[trigger] rest[i], #[trigger] rest[j]) by {
            assert(rest[i] == s[i] && rest[j] == s[j]);
        }
        lemma_unique_keeps_order(rest);
        lemma_unique_spec(rest);
        let u = unique_spec(rest);
        if !u.contains(s.last()) {
            let v = u.push(s.last());
            assert(unique_spec(s) == v);
            assert forall|i: int, j: int| 0 <= i < j < v.len() implies text_le(#[trigger] v[i], #[trigger] v[j]) by {
                if j == u.len() {
                    assert(u.contains(v[i]));
                    assert(rest.contains(v[i]));
                    let k = choose|k: int| 0 <= k < rest.len() && rest[k] == v[i];
                    assert(s[k] == v[i]);
                    assert(text_le(s[k], s[s.len() - 1]));
                } else {
                    assert(v[i] == u[i] && v[j] == u[j]);
                }
            }
        }
    }
}

/// The type definitions a mosaic is saved with: those of the given definitions
/// whose type some tile uses, in ascending order, each once.
pub fn saved_definitions(definitions: &Vec<String>, tiles: &Vec<SavedTile>) -> (r: Vec<String>)
    ensures
        texts_of(r@).no_duplicates(),
        forall|i: int, j: int| 0 <= i < j < r@.len() ==> text_le(#[trigger] r@[i]@, #[trigger] r@[j]@),
        texts_of(r@).to_set() == texts_of(definitions@).filter(defines_saved_type(tiles@)).to_set(),
{
    broadcast use vstd::seq_lib::group_to_multiset_ensures;

    let mut used: Vec<String> = Vec::new();
    let mut j: usize = 0;
    while j < tiles.len()
        invariant
            j <= tiles@.len(),
            texts_of(used@) == saved_types(tiles@.take(j as int)),
        decreases tiles@.len() - j,
    {
        let shown = tiles[j].component.to_string();
        let ghost u0 = used@;
        used.push(shown);
        assert(texts_of(used@) =~= texts_of(u0).push(shown@));
        assert(saved_types(tiles@.take(j + 1)) =~= saved_types(tiles@.take(j as int)).push(shown@));
        j = j + 1;
    }
    assert(tiles@.take(tiles@.len() as int) =~= tiles@);
    let ghost keep = defines_saved_type(tiles@);
    let ghost texts = texts_of(definitions@);
    let mut kept: Vec<String> = Vec::new();
    let mut i: usize = 0;
    while i < definitions.len()
        invariant
            i <= definitions@.len(),
            texts == texts_of(definitions@),
            texts_of(used@) == saved_types(tiles@),
            keep == defines_saved_type(tiles@),
            texts_of(kept@) == texts.take(i as int).filter(keep),
        decreases definitions@.len() - i,
    {
        let head = text_before_colon(definitions[i].as_str());
        let ghost k0 = kept@;
        assert(texts[i as int] == definitions@[i as int]@);
        proof {
            assert(texts.take(i + 1) =~= texts.take(i as int).push(texts[i as int]));
            texts.take(i as int).lemma_filter_push(texts[i as int], keep);
        }
        if contains_text(&used, &head) {
            let def = definitions[i].clone();
            kept.push(def);
            assert(texts_of(kept@) =~= texts_of(k0).push(texts[i as int]));
        }
        i = i + 1;
    }
    assert(texts.take(texts.len() as int) =~= texts);
    let ghost chosen = texts_of(kept@);
    let sorted = texts_sorted(kept);
    let r = texts_unique(sorted);
    proof {
        let st = texts_of(sorted@);
        assert forall|a: int, b: int| 0 <= a < b < st.len() implies text_le(#[trigger] st[a], #[trigger] st[b]) by {
            assert(st[a] == sorted@[a]@ && st[b] == sorted@[b]@);
        }
        lemma_unique_keeps_order(st);
        lemma_unique_spec(st);
        assert forall|x: Seq<char>| #[trigger] st.contains(x) <==> chosen.contains(x) by {
            st.to_multiset_ensures();
            chosen.to_multiset_ensures();
            assert(st.to_multiset().count(x) == chosen.to_multiset().count(x));
        }
        assert(texts_of(r@).to_set() =~= chosen.to_set());
        assert forall|a: int, b: int| 0 <= a < b < r@.len() implies text_le(#[trigger] r@[a]@, #[trigger] r@[b]@) by {
            assert(texts_of(r@)[a] == r@[a]@ && texts_of(r@)[b] == r@[b]@);
        }
    }
    r
}

/// Whether a tile has identifier `k`.
pub open spec fn has_id(k: EntityId) -> spec_fn(SavedTile) -> bool {
    |t: SavedTile| t.id == k
}

/// The tiles with identifier `k`, in order.
pub open spec fn with_id(s: Seq<SavedTile>, k: EntityId) -> Seq<SavedTile> {
    s.filter(has_id(k))
}

/// The identifiers of `s` never decrease.
pub open spec fn ids_ascending(s: Seq<SavedTile>) -> bool {
    forall|i: int, j: int| 0 <= i <= j < s.len() ==> (#[trigger] s[i]).id <= (#[trigger] s[j]).id
}

/// The tiles in ascending order of identifiers; tiles with the same
/// identifier keep their order.
pub fn sort_by_id(tiles: Vec<SavedTile>) -> (r: Vec<SavedTile>)
    ensures
        ids_ascending(r@),
        forall|k: EntityId| #[trigger] with_id(r@, k) == with_id(tiles@, k),
{
    let ghost all = tiles@;
    let mut rest = tiles;
    let mut r: Vec<SavedTile> = Vec::new();
    let ghost mut done: int = 0;
    while rest.len() > 0
        invariant
            0 <= done <= all.len(),
            rest@ == all.skip(done),
            ids_ascending(r@),
            forall|k: EntityId| #[trigger] with_id(r@, k) == with_id(all.take(done), k),
        decreases rest@.len(),
    {
        let t = rest.remove(0);
        assert(t == all[done]);
        let mut p: usize = 0;
        while p < r.len() && r[p].id <= t.id
            invariant
                p <= r@.len(),
                forall|q: int| 0 <= q < p ==> (#[trigger] r@[q]).id <= t.id,
            decreases r@.len() - p,
        {
            p = p + 1;
        }
        let ghost before = r@;
        r.insert(p, t);
        proof {
            assert(r@ =~= before.take(p as int) + seq![t] + before.skip(p as int));
            assert forall|i: int, j: int| 0 <= i <= j < r@.len() implies (#[trigger] r@[i]).id <= (#[trigger] r@[j]).id by {
                if i < p && j < p {
                    assert(r@[i] == before[i] && r@[j] == before[j]);
                } else if i < p && j == p {
                    assert(r@[i] == before[i]);
                } else if i < p {
                    assert(r@[i] == before[i] && r@[j] == before[j - 1]);
                } else if i == p && j == p {
                } else if i == p {
                    assert(r@[j] == before[j - 1]);
                    assert(before[p as int].id > t.id);
                    assert(before[p as int].id <= before[j - 1].id);
                } else {
                    assert(r@[i] == before[i - 1] && r@[j] == before[j - 1]);
                }
            }
            assert(all.take(done + 1) =~= all.take(done).push(t));
            assert forall|k: EntityId| #[trigger] with_id(r@, k) == with_id(all.take(done + 1), k) by {
                let pr = has_id(k);
                let a = before.take(p as int);
                let b = before.skip(p as int);
                let one = seq![t];
                assert(before =~= a + b);
                assert(r@ =~= (a + one) + b);
                Seq::filter_distributes_over_add(a, b, pr);
                Seq::filter_distributes_over_add(a + one, b, pr);
                Seq::filter_distributes_over_add(a, one, pr);
                assert(with_id(before, k) == with_id(all.take(done), k));
                all.take(done).lemma_filter_push(t, pr);
                assert(Seq::<SavedTile>::empty().filter(pr) =~= Seq::<SavedTile>::empty()) by {
                    reveal(Seq::filter);
                }
                Seq::<SavedTile>::empty().lemma_filter_push(t, pr);
                assert(Seq::<SavedTile>::empty().push(t) =~= one);
                if t.id == k {
                    assert(pr(t));
                    assert(one.filter(pr) =~= one);
                    assert(b.filter(pr) =~= Seq::<SavedTile>::empty()) by {
                        if b.filter(pr).len() > 0 {
                            let x = b.filter(pr)[0];
                            b.lemma_filter_pred(pr, 0);
                            assert(b.filter(pr).contains(x));
                            b.lemma_filter_contains_rev(pr, x);
                            let q = choose|q: int| 0 <= q < b.len() && b[q] == x;
                            assert(before[p + q] == x);
                            assert(x.id == k);
                            assert(before[p as int].id > t.id);
                            assert(before[p as int].id <= before[p + q].id);
                        }
                    }
                    assert(with_id(r@, k) =~= a.filter(pr) + one);
                    assert(with_id(before, k) =~= a.filter(pr));
                } else {
                    assert(!pr(t));
                    assert(one.filter(pr) =~= Seq::<SavedTile>::empty());
                    assert(with_id(r@, k) =~= a.filter(pr) + b.filter(pr));
                }
            }
            done = done + 1;
        }
        assert(rest@ =~= all.skip(done));
    }
    assert(all.take(done) =~= all);
    r
}

/// The bytes a mosaic is saved as, given all its type definitions and its
/// tiles: the definitions its tiles use (see `saved_definitions`), then the
/// tiles in ascending order of identifiers (see `sort_by_id`).
pub fn save_mosaic(definitions: &Vec<String>, tiles: Vec<SavedTile>) -> (r: Vec<u8>)
    ensures
        exists|defs: Seq<String>, order: Seq<SavedTile>| {
            &&& texts_of(defs).no_duplicates()
            &&& (forall|i: int, j: int| 0 <= i < j < defs.len() ==> text_le(#[trigger] defs[i]@, #[trigger] defs[j]@))
            &&& texts_of(defs).to_set() == texts_of(definitions@).filter(defines_saved_type(tiles@)).to_set()
            &&& ids_ascending(order)
            &&& (forall|k: EntityId| #[trigger] with_id(order, k) == with_id(tiles@, k))
            &&& r@ == saved_bytes(texts_of(defs), order)
        },
{
    let defs = saved_definitions(definitions, &tiles);
    let ghost given = tiles@;
    let order = sort_by_id(tiles);
    let r = save_mosaic_bytes(&defs, &order);
    assert(given == tiles@);
    r
}

/// The record a saved tile is read back as.
pub open spec fn saved_frame(t: SavedTile) -> TileFrame {
    TileFrame {
        id: t.id,
        source: t.source,
        target: t.target,
        name: encode_utf8(saved_name(t)),
        data: t.data@,
    }
}

/// The records saved tiles are read back as.
pub open spec fn saved_frames(tiles: Seq<SavedTile>) -> Seq<TileFrame> {
    tiles.map_values(|t: SavedTile| saved_frame(t))
}

/// A window of `data` that holds `x` holds each part of `x` at the same offset.
proof fn lemma_window(data: Seq<u8>, at: int, x: Seq<u8>, i: int, j: int)
    requires
        0 <= at,
        at + x.len() <= data.len(),
        data.subrange(at, at + x.len()) == x,
        0 <= i <= j <= x.len(),
    ensures
        data.subrange(at + i, at + j) == x.subrange(i, j),
{
    assert forall|k: int| 0 <= k < j - i implies #[trigger] data.subrange(at + i, at + j)[k] == x.subrange(i, j)[k] by {
        assert(data.subrange(at, at + x.len())[i + k] == x[i + k]);
    }
    assert(data.subrange(at + i, at + j) =~= x.subrange(i, j));
}

/// The definitions saved at `at` are read back, encoded, up to their closing zero length.
proof fn lemma_read_saved_types(data: Seq<u8>, at: int, defs: Seq<Seq<char>>)
    requires
        0 <= at,
        at + types_bytes(defs).len() <= data.len(),
        data.subrange(at, at + types_bytes(defs).len()) == types_bytes(defs),
        forall|i: int| 0 <= i < defs.len() ==> 0 < #[trigger] encode_utf8(defs[i]).len() < 0x1_0000,
    ensures
        read_types(data, at) == Some((
            defs.map_values(|d: Seq<char>| encode_utf8(d)),
            at + types_bytes(defs).len(),
        )),
    decreases defs.len(),
{
    let x = types_bytes(defs);
    if defs.len() == 0 {
        assert(x =~= seq![0u8, 0u8]);
        lemma_window(data, at, x, 0, 2);
        reveal_with_fuel(be_value, 3);
        assert(be_at(data, at, 2) == 0);
        assert(defs.map_values(|d: Seq<char>| encode_utf8(d)) =~= Seq::<Seq<u8>>::empty());
    } else {
        let d = defs[0];
        let rest = defs.drop_first();
        let e = encode_utf8(d);
        let n = e.len() as int;
        let head = be_bytes(n as nat, 2);
        lemma_be_bytes_len(n as nat, 2);
        lemma_be_roundtrip(n as nat, 2);
        lemma_radix_powers();
        assert(x =~= head + e + types_bytes(rest));
        lemma_window(data, at, x, 0, 2);
        assert(x.subrange(0, 2) =~= head);
        assert(be_at(data, at, 2) == n);
        lemma_window(data, at, x, 2, 2 + n);
        assert(x.subrange(2, 2 + n) =~= e);
        let y = types_bytes(rest);
        lemma_window(data, at, x, 2 + n, x.len() as int);
        assert(x.subrange(2 + n, x.len() as int) =~= y);
        assert forall|i: int| 0 <= i < rest.len() implies 0 < #[trigger] encode_utf8(rest[i]).len() < 0x1_0000 by {
            assert(rest[i] == defs[i + 1]);
        }
        lemma_read_saved_types(data, at + 2 + n, rest);
        assert(defs.map_values(|d: Seq<char>| encode_utf8(d)) =~= seq![e] + rest.map_values(|d: Seq<char>| encode_utf8(d)));
    }
}

/// The tile saved at `at` is read back as its record.
#[verifier::rlimit(30)]
proof fn lemma_read_saved_tile(data: Seq<u8>, at: int, t: SavedTile)
    requires
        0 <= at,
        at + tile_bytes(t).len() <= data.len(),
        data.subrange(at, at + tile_bytes(t).len()) == tile_bytes(t),
        t.data@.len() < 0x1_0000_0000,
        encode_utf8(saved_name(t)).len() <= usize::MAX,
    ensures
        read_tile(data, at) == Some((saved_frame(t), at + tile_bytes(t).len())),
        tile_bytes(t).len() > 0,
{
    let x = tile_bytes(t);
    let e = encode_utf8(saved_name(t));
    let n = e.len() as int;
    let m = t.data@.len() as int;
    lemma_radix_powers();
    lemma_be_bytes_len(t.id as nat, 8);
    lemma_be_bytes_len(t.source as nat, 8);
    lemma_be_bytes_len(t.target as nat, 8);
    lemma_be_bytes_len(n as nat, 8);
    lemma_be_bytes_len(m as nat, 4);
    lemma_be_roundtrip(t.id as nat, 8);
    lemma_be_roundtrip(t.source as nat, 8);
    lemma_be_roundtrip(t.target as nat, 8);
    lemma_be_roundtrip(n as nat, 8);
    lemma_be_roundtrip(m as nat, 4);
    assert(x.len() == 36 + n + m);
    lemma_window(data, at, x, 0, 8);
    assert(x.subrange(0, 8) =~= be_bytes(t.id as nat, 8));
    lemma_window(data, at, x, 8, 16);
    assert(x.subrange(8, 16) =~= be_bytes(t.source as nat, 8));
    lemma_window(data, at, x, 16, 24);
    assert(x.subrange(16, 24) =~= be_bytes(t.target as nat, 8));
    lemma_window(data, at, x, 24, 32);
    assert(x.subrange(24, 32) =~= be_bytes(n as nat, 8));
    lemma_window(data, at, x, 32, 32 + n);
    assert(x.subrange(32, 32 + n) =~= e);
    lemma_window(data, at, x, 32 + n, 36 + n);
    assert(x.subrange(32 + n, 36 + n) =~= be_bytes(m as nat, 4));
    lemma_window(data, at, x, 36 + n, 36 + n + m);
    assert(x.subrange(36 + n, 36 + n + m) =~= t.data@);
    assert(x =~= be_bytes(t.id as nat, 8) + be_bytes(t.source as nat, 8) + be_bytes(t.target as nat, 8)
        + be_bytes(n as nat, 8) + e + be_bytes(m as nat, 4) + t.data@);
    assert(data.subrange(at + 24, at + 24 + 8) == be_bytes(n as nat, 8));
    assert(n < 0x1_0000_0000_0000_0000);
    vstd::arithmetic::div_mod::lemma_small_mod(n as nat, pow(256, 8) as nat);
    vstd::arithmetic::div_mod::lemma_small_mod(m as nat, pow(256, 4) as nat);
    vstd::arithmetic::div_mod::lemma_small_mod(t.id as nat, pow(256, 8) as nat);
    vstd::arithmetic::div_mod::lemma_small_mod(t.source as nat, pow(256, 8) as nat);
    vstd::arithmetic::div_mod::lemma_small_mod(t.target as nat, pow(256, 8) as nat);
    assert(be_at(data, at + 24, 8) == n);
    assert(be_at(data, at + 24, 8) as usize as int == n);
    assert(be_at(data, at + 32 + n, 4) == m);
}

/// The tiles saved from `at` to the end of `data` are read back as their records.
proof fn lemma_read_saved_tiles(data: Seq<u8>, at: int, tiles: Seq<SavedTile>)
    requires
        0 <= at <= data.len(),
        data.subrange(at, data.len() as int) == tiles_bytes(tiles),
        forall|i: int| 0 <= i < tiles.len() ==> #[trigger] tiles[i].data@.len() < 0x1_0000_0000
            && encode_utf8(saved_name(tiles[i])).len() <= usize::MAX,
    ensures
        read_tiles(data, at) == Some(saved_frames(tiles)),
    decreases tiles.len(),
{
    if tiles.len() == 0 {
        assert(saved_frames(tiles) =~= Seq::<TileFrame>::empty());
        assert(data.subrange(at, data.len() as int).len() == 0);
    } else {
        let t = tiles[0];
        let rest = tiles.drop_first();
        let x = tile_bytes(t);
        let y = tiles_bytes(rest);
        assert(data.subrange(at, data.len() as int) == x + y);
        assert(data.subrange(at, at + x.len()) =~= x) by {
            lemma_window(data, at, x + y, 0, x.len() as int);
            assert((x + y).subrange(0, x.len() as int) =~= x);
        }
        lemma_read_saved_tile(data, at, t);
        let q = at + x.len();
        assert(data.subrange(q, data.len() as int) =~= y) by {
            lemma_window(data, at, x + y, x.len() as int, (x + y).len() as int);
            assert((x + y).subrange(x.len() as int, (x + y).len() as int) =~= y);
        }
        assert forall|i: int| 0 <= i < rest.len() implies #[trigger] rest[i].data@.len() < 0x1_0000_0000
            && encode_utf8(saved_name(rest[i])).len() <= usize::MAX by {
            assert(rest[i] == tiles[i + 1]);
        }
        lemma_read_saved_tiles(data, q, rest);
        assert(saved_frames(tiles) =~= seq![saved_frame(t)] + saved_frames(rest));
    }
}

/// Law: the bytes a mosaic is saved as load back as the definitions of the
/// types its tiles use, in order, and its tiles, in order, each with its
/// identifier, source, target and data, and with its component name made
/// again from the saved name. Definitions must take one to 65535 bytes and
/// tile data less than 4 GiB, as their lengths are saved in two and four bytes.
pub proof fn lemma_saved_mosaic_loads(defs: Seq<Seq<char>>, tiles: Seq<SavedTile>)
    requires
        forall|i: int| 0 <= i < defs.len() ==> 0 < #[trigger] encode_utf8(defs[i]).len() < 0x1_0000,
        forall|i: int| 0 <= i < tiles.len() ==> #[trigger] tiles[i].data@.len() < 0x1_0000_0000
            && encode_utf8(saved_name(tiles[i])).len() <= usize::MAX,
    ensures
        loadable(saved_bytes(defs, tiles)),
        loaded(saved_bytes(defs, tiles)) == load_steps(defs, saved_frames(tiles)),
        forall|i: int| 0 <= i < tiles.len() ==> tile_name(#[trigger] saved_frames(tiles)[i])
            == fixed32_text(saved_name(tiles[i])),
{
    broadcast use vstd::utf8::group_utf8_lib;

    let data = saved_bytes(defs, tiles);
    let x = types_bytes(defs);
    assert(data.subrange(0, x.len() as int) =~= x);
    lemma_read_saved_types(data, 0, defs);
    assert(data.subrange(x.len() as int, data.len() as int) =~= tiles_bytes(tiles));
    lemma_read_saved_tiles(data, x.len() as int, tiles);
    let encoded = defs.map_values(|d: Seq<char>| encode_utf8(d));
    assert(decoded_texts(encoded) =~= defs);
    assert forall|i: int| 0 <= i < tiles.len() implies tile_name(#[trigger] saved_frames(tiles)[i])
        == fixed32_text(saved_name(tiles[i])) by {
        assert(saved_frames(tiles)[i] == saved_frame(tiles[i]));
    }
}

/// Keeping the elements that all pass a test keeps the whole sequence.
proof fn lemma_filter_keeps_all<A>(s: Seq<A>, p: spec_fn(A) -> bool)
    requires
        forall|i: int| 0 <= i < s.len() ==> p(#[trigger] s[i]),
    ensures
        s.filter(p) == s,
    decreases s.len(),
{
    if s.len() == 0 {
        assert(s.filter(p) =~= s) by {
            reveal(Seq::filter);
        }
    } else {
        let rest = s.drop_last();
        assert forall|i: int| 0 <= i < rest.len() implies p(#[trigger] rest[i]) by {
            assert(rest[i] == s[i]);
        }
        lemma_filter_keeps_all(rest, p);
        rest.lemma_filter_push(s.last(), p);
        assert(rest.push(s.last()) =~= s);
    }
}

/// Dropping NUL characters twice drops no more than once.
proof fn lemma_without_nul_twice(s: Seq<char>)
    ensures
        without_nul(without_nul(s)) == without_nul(s),
{
    let p = |c: char| c != '\0';
    s.filter_lemma(p);
    lemma_filter_keeps_all(s.filter(p), p);
}

/// A name of at most 32 bytes reads back, once its padding is dropped, as itself.
proof fn lemma_fixed_name_unpadded(w: Seq<char>)
    requires
        encode_utf8(w).len() <= 32,
        without_nul(w) == w,
    ensures
        without_nul(fixed32_text(w)) == w,
{
    let p = |c: char| c != '\0';
    assert(crate::datatypes::prefix_within(w, 32) == w);
    let pad = Seq::new((32 - encode_utf8(w).len()) as nat, |i: int| '\0');
    assert(fixed32_text(w) == w + pad);
    Seq::filter_distributes_over_add(w, pad, p);
    assert(pad.filter(p) =~= Seq::<char>::empty()) by {
        if pad.filter(p).len() > 0 {
            pad.lemma_filter_pred(p, 0);
            pad.filter(p).lemma_filter_contains_rev(p, pad.filter(p)[0]);
            assert(pad.filter(p).contains(pad.filter(p)[0]));
            pad.lemma_filter_contains_rev(p, pad.filter(p)[0]);
        }
    }
    assert(w + Seq::<char>::empty() =~= w);
}

/// Law: when every saved definition defines a type that some saved tile uses,
/// and every tile's name takes at most 32 bytes once unpadded, loading gives
/// back every definition, in order, then every tile.
pub proof fn lemma_saved_definitions_all_load(defs: Seq<Seq<char>>, tiles: Seq<SavedTile>)
    requires
        forall|i: int| 0 <= i < defs.len() ==> defines_saved_type(tiles)(#[trigger] defs[i]),
        forall|i: int| 0 <= i < defs.len() ==> 0 < #[trigger] encode_utf8(defs[i]).len() < 0x1_0000,
        forall|i: int| 0 <= i < tiles.len() ==> #[trigger] tiles[i].data@.len() < 0x1_0000_0000
            && encode_utf8(saved_name(tiles[i])).len() <= 32,
    ensures
        loadable(saved_bytes(defs, tiles)),
        loaded(saved_bytes(defs, tiles)) == add_steps(defs) + create_steps(saved_frames(tiles)),
{
    assert forall|i: int| 0 <= i < tiles.len() implies #[trigger] tiles[i].data@.len() < 0x1_0000_0000
        && encode_utf8(saved_name(tiles[i])).len() <= usize::MAX by {
    }
    lemma_saved_mosaic_loads(defs, tiles);
    assert forall|i: int| 0 <= i < tiles.len() implies encode_utf8(#[trigger] saved_name(tiles[i])).len() <= 32 by {
        assert(tiles[i].data@.len() < 0x1_0000_0000);
    }
    let frames = saved_frames(tiles);
    assert(used_types(frames) =~= saved_types(tiles)) by {
        assert forall|i: int| 0 <= i < tiles.len() implies #[trigger] used_types(frames)[i] == saved_types(tiles)[i] by {
            let w = saved_name(tiles[i]);
            assert(encode_utf8(w).len() <= 32);
            assert(tile_name(frames[i]) == fixed32_text(w));
            lemma_without_nul_twice(tiles[i].component.0@);
            lemma_fixed_name_unpadded(w);
        }
    }
    lemma_filter_keeps_all(defs, defines_used_type(frames));
}

/// Tiles with the same tiles of each identifier hold the same tiles.
proof fn lemma_same_tiles(order: Seq<SavedTile>, tiles: Seq<SavedTile>, x: SavedTile)
    requires
        forall|k: EntityId| #[trigger] with_id(order, k) == with_id(tiles, k),
        order.contains(x),
    ensures
        tiles.contains(x),
{
    let j = choose|j: int| 0 <= j < order.len() && order[j] == x;
    order.lemma_filter_contains(has_id(x.id), j);
    assert(with_id(order, x.id) == with_id(tiles, x.id));
    tiles.lemma_filter_contains_rev(has_id(x.id), x);
}

/// Law: what `save_mosaic` writes (its chosen definitions `defs` and its tiles
/// in identifier order `order`) loads back as every chosen definition, in
/// order, then every tile, provided each tile's name takes at most 32 bytes
/// unpadded, each definition 1 to 65535 bytes and each tile's data less than
/// 4 GiB.
pub proof fn lemma_save_mosaic_loads(
    definitions: Seq<String>,
    tiles: Seq<SavedTile>,
    defs: Seq<String>,
    order: Seq<SavedTile>,
)
    requires
        texts_of(defs).to_set() == texts_of(definitions).filter(defines_saved_type(tiles)).to_set(),
        forall|k: EntityId| #[trigger] with_id(order, k) == with_id(tiles, k),
        forall|i: int| 0 <= i < definitions.len() ==> 0 < #[trigger] encode_utf8(definitions[i]@).len() < 0x1_0000,
        forall|i: int| 0 <= i < tiles.len() ==> #[trigger] tiles[i].data@.len() < 0x1_0000_0000
            && encode_utf8(saved_name(tiles[i])).len() <= 32,
    ensures
        loadable(saved_bytes(texts_of(defs), order)),
        loaded(saved_bytes(texts_of(defs), order)) == add_steps(texts_of(defs)) + create_steps(saved_frames(order)),
{
    let ds = texts_of(defs);
    let all = texts_of(definitions);
    let pr = defines_saved_type(tiles);
    assert forall|i: int| 0 <= i < ds.len() implies defines_saved_type(order)(#[trigger] ds[i])
        && 0 < encode_utf8(ds[i]).len() < 0x1_0000 by {
        let d = ds[i];
        assert(ds.to_set().contains(d));
        assert(all.filter(pr).to_set().contains(d));
        assert(all.filter(pr).contains(d));
        all.lemma_filter_contains_rev(pr, d);
        let q = choose|q: int| 0 <= q < all.filter(pr).len() && all.filter(pr)[q] == d;
        all.lemma_filter_pred(pr, q);
        let m = choose|m: int| 0 <= m < all.len() && all[m] == d;
        assert(definitions[m]@ == d);
        let n = choose|n: int| 0 <= n < saved_types(tiles).len() && saved_types(tiles)[n] == before_colon(d);
        let t = tiles[n];
        assert(tiles.contains(t));
        assert(order.contains(t)) by {
            assert forall|k: EntityId| #[trigger] with_id(tiles, k) == with_id(order, k) by {
                assert(with_id(order, k) == with_id(tiles, k));
            }
            lemma_same_tiles(tiles, order, t);
        }
        let o = choose|o: int| 0 <= o < order.len() && order[o] == t;
        assert(saved_types(order)[o] == before_colon(d));
    }
    assert forall|i: int| 0 <= i < order.len() implies #[trigger] order[i].data@.len() < 0x1_0000_0000
        && encode_utf8(saved_name(order[i])).len() <= 32 by {
        let x = order[i];
        assert(order.contains(x));
        lemma_same_tiles(order, tiles, x);
        let m = choose|m: int| 0 <= m < tiles.len() && tiles[m] == x;
        assert(tiles[m].data@.len() < 0x1_0000_0000);
    }
    lemma_saved_definitions_all_load(ds, order);
}

} // verus!
