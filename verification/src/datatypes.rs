//! Plain data types of component fields.
use vstd::prelude::*;
use vstd::utf8::encode_utf8;

use crate::text::{strip_nul, trim_text, trimmed, without_nul};

verus! {

/// A handle to an interned string.
#[derive(Clone, PartialEq, Eq, Structural, PartialOrd, Ord, Hash, Debug)]
pub struct Str(pub u64);

/// The longest prefix of `s` whose UTF-8 encoding takes at most `cap` bytes.
pub open spec fn prefix_within(s: Seq<char>, cap: nat) -> Seq<char>
    decreases s.len(),
{
    if encode_utf8(s).len() <= cap || s.len() == 0 {
        s
    } else {
        prefix_within(s.drop_last(), cap)
    }
}

/// The text of a fixed 32-byte string made from `s`: `s` cut at the last
/// character boundary within 32 bytes, then padded with NUL characters to 32
/// bytes.
pub open spec fn fixed32_text(s: Seq<char>) -> Seq<char> {
    let p = prefix_within(s, 32);
    p + Seq::new((32 - encode_utf8(p).len()) as nat, |i: int| '\0')
}

/// `fstr::FStr::<32>::from_str_lossy(s, b'\0')`, read back as text. As the
/// crate's source shows, the result holds `s` truncated at the last character
/// boundary within 32 bytes, followed by NUL bytes up to 32 bytes.
#[verifier::external_body]
fn fixed32(s: &str) -> (r: String)
    ensures
        r@ == fixed32_text(s@),
{
    fstr::FStr::<32>::from_str_lossy(s, b'\0').as_str().to_owned()
}

/// A component name: the text of a fixed 32-byte string, padded with NUL
/// characters.
#[derive(PartialEq, Eq, PartialOrd, Ord, Hash, Debug)]
pub struct S32(pub String);

impl Clone for S32 {
    fn clone(&self) -> (r: Self)
        ensures
            r == *self,
    {
        S32(self.0.clone())
    }
}

impl S32 {
    /// The name made from `value`, truncated to 32 bytes and padded.
    pub fn from_text(value: &str) -> (r: S32)
        ensures
            r.0@ == fixed32_text(value@),
    {
        S32(fixed32(value))
    }

    /// The name without its padding and surrounding white space.
    pub fn to_string(&self) -> (r: String)
        ensures
            r@ == trimmed(without_nul(self.0@)),
    {
        let bare = strip_nul(self.0.as_str());
        trim_text(bare.as_str())
    }
}

/// The type of a component field: a plain value type, or another component.
#[derive(PartialEq, Eq, PartialOrd, Ord, Hash, Debug)]
pub enum Datatype {
    UNIT,
    I8,
    I16,
    I32,
    I64,
    U8,
    U16,
    U32,
    U64,
    F32,
    F64,
    S32,
    S128,
    BOOL,
    COMP(S32),
}

impl Clone for Datatype {
    fn clone(&self) -> (r: Self)
        ensures
            r == *self,
    {
        match self {
            Datatype::UNIT => Datatype::UNIT,
            Datatype::I8 => Datatype::I8,
            Datatype::I16 => Datatype::I16,
            Datatype::I32 => Datatype::I32,
            Datatype::I64 => Datatype::I64,
            Datatype::U8 => Datatype::U8,
            Datatype::U16 => Datatype::U16,
            Datatype::U32 => Datatype::U32,
            Datatype::U64 => Datatype::U64,
            Datatype::F32 => Datatype::F32,
            Datatype::F64 => Datatype::F64,
            Datatype::S32 => Datatype::S32,
            Datatype::S128 => Datatype::S128,
            Datatype::BOOL => Datatype::BOOL,
            Datatype::COMP(name) => Datatype::COMP(name.clone()),
        }
    }
}

/// A named field of a component.
#[derive(PartialEq, Eq, PartialOrd, Ord, Hash, Debug)]
pub struct ComponentField {
    pub name: S32,
    pub datatype: Datatype,
}

impl Clone for ComponentField {
    fn clone(&self) -> (r: Self)
        ensures
            r == *self,
    {
        ComponentField { name: self.name.clone(), datatype: self.datatype.clone() }
    }
}

/// The type of a component: an alias of a single field, or a named product
/// of fields.
#[derive(PartialEq, Eq, PartialOrd, Ord, Hash, Debug)]
pub enum ComponentType {
    Alias(ComponentField),
    Product { name: S32, fields: Vec<ComponentField> },
}

/// The plain values of a component type.
pub enum TypeShape {
    Alias(ComponentField),
    Product(S32, Seq<ComponentField>),
}

impl Clone for ComponentType {
    fn clone(&self) -> (r: Self)
        ensures
            r.shape() == self.shape(),
    {
        match self {
            ComponentType::Alias(field) => ComponentType::Alias(field.clone()),
            ComponentType::Product { name, fields } => {
                let copied = fields.clone();
                assert(copied@ =~= fields@);
                ComponentType::Product { name: name.clone(), fields: copied }
            },
        }
    }
}

/// The texts of the names of some fields.
pub open spec fn name_texts(fields: Seq<ComponentField>) -> Seq<Seq<char>> {
    fields.map_values(|f: ComponentField| f.name.0@)
}

/// The text of the field name an alias answers to: the fixed form of `self`.
pub open spec fn self_name() -> Seq<char> {
    fixed32_text(seq!['s', 'e', 'l', 'f'])
}

impl ComponentType {
    /// The name the type is declared with (for an alias, its field's name).
    pub open spec fn declared_name(&self) -> S32 {
        match self {
            ComponentType::Alias(field) => field.name,
            ComponentType::Product { name, .. } => *name,
        }
    }

    /// The plain values of the type.
    pub open spec fn shape(&self) -> TypeShape {
        match self {
            ComponentType::Alias(field) => TypeShape::Alias(*field),
            ComponentType::Product { name, fields } => TypeShape::Product(*name, fields@),
        }
    }

    /// The same type under the name `n`.
    pub open spec fn renamed(&self, n: S32) -> TypeShape {
        match self {
            ComponentType::Alias(field) => TypeShape::Alias(ComponentField { name: n, datatype: field.datatype }),
            ComponentType::Product { fields, .. } => TypeShape::Product(n, fields@),
        }
    }

    /// The fields of the type: the aliased field, or the product's fields.
    pub open spec fn field_list(&self) -> Seq<ComponentField> {
        match self {
            ComponentType::Alias(field) => seq![*field],
            ComponentType::Product { fields, .. } => fields@,
        }
    }

    /// The field `get_field` finds for `field_name`: an alias's field when it
    /// is named `self` (whatever is asked), or the first field of a product
    /// named `field_name`.
    pub open spec fn field_named(&self, field_name: S32) -> Option<ComponentField> {
        match self {
            ComponentType::Alias(field) => if field.name.0@ == self_name() {
                Some(*field)
            } else {
                None
            },
            ComponentType::Product { fields, .. } => {
                let names = name_texts(fields@);
                match names.index_of_first(field_name.0@) {
                    Some(k) => Some(fields@[k]),
                    None => None,
                }
            },
        }
    }

    pub fn is_alias(&self) -> (b: bool)
        ensures
            b == (self is Alias),
    {
        match self {
            ComponentType::Alias(_) => true,
            _ => false,
        }
    }

    pub fn is_product(&self) -> (b: bool)
        ensures
            b == (self is Product),
    {
        match self {
            ComponentType::Product { .. } => true,
            _ => false,
        }
    }

    /// The same type under another name.
    pub fn duplicate_as(&self, new_name: S32) -> (r: ComponentType)
        ensures
            r.shape() == self.renamed(new_name),
    {
        match self {
            ComponentType::Alias(field) => ComponentType::Alias(
                ComponentField { name: new_name, datatype: field.datatype.clone() },
            ),
            ComponentType::Product { fields, .. } => {
                let copied = fields.clone();
                assert(copied@ =~= fields@);
                ComponentType::Product { name: new_name, fields: copied }
            },
        }
    }

    /// The declared name, without its padding.
    pub fn name(&self) -> (r: String)
        ensures
            r@ == without_nul(self.declared_name().0@),
    {
        match self {
            ComponentType::Alias(field) => strip_nul(field.name.0.as_str()),
            ComponentType::Product { name, .. } => strip_nul(name.0.as_str()),
        }
    }

    /// The fields of the type.
    pub fn get_fields(&self) -> (r: Vec<ComponentField>)
        ensures
            r@ == self.field_list(),
    {
        match self {
            ComponentType::Alias(field) => {
                let r = vec![field.clone()];
                assert(r@ =~= seq![*field]);
                r
            },
            ComponentType::Product { fields, .. } => {
                let r = fields.clone();
                assert(r@ =~= fields@);
                r
            },
        }
    }

    /// The names of the fields, in order.
    pub fn get_field_names(&self) -> (r: Vec<S32>)
        ensures
            r@ == self.field_list().map_values(|f: ComponentField| f.name),
    {
        let fields = self.get_fields();
        let mut r: Vec<S32> = Vec::new();
        let mut i: usize = 0;
        while i < fields.len()
            invariant
                i <= fields@.len(),
                fields@ == self.field_list(),
                r@ == fields@.take(i as int).map_values(|f: ComponentField| f.name),
            decreases fields@.len() - i,
        {
            r.push(fields[i].name.clone());
            assert(fields@.take(i + 1).map_values(|f: ComponentField| f.name)
                =~= fields@.take(i as int).map_values(|f: ComponentField| f.name).push(fields@[i as int].name));
            i = i + 1;
        }
        assert(fields@.take(fields@.len() as int) =~= fields@);
        r
    }

    /// The field answering to `field_name` (see `field_named`).
    pub fn get_field(&self, field_name: S32) -> (r: Option<&ComponentField>)
        ensures
            r matches Some(f) ==> self.field_named(field_name) == Some(*f),
            r is None ==> self.field_named(field_name) is None,
    {
        match self {
            ComponentType::Alias(field) => {
                let me = S32::from_text("self");
                proof {
                    reveal_strlit("self");
                    assert("self"@ =~= seq!['s', 'e', 'l', 'f']);
                }
                if field.name.0 == me.0 {
                    Some(field)
                } else {
                    None
                }
            },
            ComponentType::Product { fields, .. } => {
                let ghost names = name_texts(fields@);
                proof {
                    names.index_of_first_ensures(field_name.0@);
                }
                let mut i: usize = 0;
                while i < fields.len()
                    invariant
                        i <= fields@.len(),
                        names == name_texts(fields@),
                        self.field_named(field_name) == (match names.index_of_first(field_name.0@) {
                            Some(k) => Some(fields@[k]),
                            None => None,
                        }),
                        forall|j: int| 0 <= j < i ==> names[j] != field_name.0@,
                        match names.index_of_first(field_name.0@) {
                            Some(index) => {
                                &&& names.contains(field_name.0@)
                                &&& 0 <= index < names.len()
                                &&& names[index] == field_name.0@
                                &&& forall|j: int| 0 <= j < index < names.len() ==> names[j] != field_name.0@
                            },
                            None => !names.contains(field_name.0@),
                        },
                    decreases fields@.len() - i,
                {
                    if fields[i].name.0 == field_name.0 {
                        assert(names[i as int] == field_name.0@);
                        assert(names.contains(field_name.0@));
                        assert(names.index_of_first(field_name.0@) == Some(i as int)) by {
                            let k = names.index_of_first(field_name.0@)->0;
                            if k < i {
                                assert(names[k] != field_name.0@);
                            }
                        }
                        assert(self.field_named(field_name) == Some(fields@[i as int]));
                        let found = &fields[i];
                        assert(*found == fields@[i as int]);
                        return Some(found);
                    }
                    i = i + 1;
                }
                proof {
                    if names.contains(field_name.0@) {
                        let k = names.index_of_first(field_name.0@)->0;
                        assert(names[k] != field_name.0@);
                    }
                }
                None
            },
        }
    }
}

} // verus!
