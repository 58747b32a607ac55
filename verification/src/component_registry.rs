//! The registry of component types, by name.
use vstd::prelude::*;

use crate::datatypes::{fixed32_text, ComponentField, ComponentType, Datatype, S32};
use crate::logging::Logging;
use crate::text::without_nul;

verus! {

broadcast use vstd::string::group_string_axioms;

/// The registered component types, each under its name, and the textual
/// definitions they were added from.
pub struct ComponentRegistry {
    pub component_type_map: Vec<(S32, ComponentType)>,
    pub component_definitions: Vec<String>,
}

/// The key a type is registered under: its name without padding, made into
/// a fixed 32-byte name again.
pub open spec fn registry_key(t: ComponentType) -> Seq<char> {
    fixed32_text(without_nul(t.declared_name().0@))
}

impl ComponentRegistry {
    /// The texts of the names the entries are registered under, in order.
    pub open spec fn keys(&self) -> Seq<Seq<char>> {
        self.component_type_map@.map_values(|e: (S32, ComponentType)| e.0.0@)
    }

    /// The type registered under the name `k` (the first entry with that name).
    pub open spec fn lookup(&self, k: Seq<char>) -> Option<ComponentType> {
        match self.keys().index_of_first(k) {
            Some(i) => Some(self.component_type_map@[i].1),
            None => None,
        }
    }

    /// An empty registry.
    pub fn new() -> (r: ComponentRegistry)
        ensures
            r.component_type_map@ == Seq::<(S32, ComponentType)>::empty(),
            r.component_definitions@ == Seq::<String>::empty(),
    {
        ComponentRegistry { component_type_map: Vec::new(), component_definitions: Vec::new() }
    }

    /// Forgets every type and definition.
    pub fn clear(&mut self)
        ensures
            final(self).component_type_map@ == Seq::<(S32, ComponentType)>::empty(),
            final(self).component_definitions@ == Seq::<String>::empty(),
    {
        self.component_definitions.clear();
        self.component_type_map.clear();
    }

    /// The position of the first entry registered under `name`.
    fn position_of(&self, name: &S32) -> (r: Option<usize>)
        ensures
            r matches Some(i) ==> self.keys().index_of_first(name.0@) == Some(i as int)
                && i < self.component_type_map@.len(),
            r is None ==> self.keys().index_of_first(name.0@) is None,
    {
        let ghost keys = self.keys();
        proof {
            keys.index_of_first_ensures(name.0@);
        }
        let mut i: usize = 0;
        while i < self.component_type_map.len()
            invariant
                i <= self.component_type_map@.len(),
                keys == self.keys(),
                forall|j: int| 0 <= j < i ==> keys[j] != name.0@,
                match keys.index_of_first(name.0@) {
                    Some(index) => {
                        &&& keys.contains(name.0@)
                        &&& 0 <= index < keys.len()
                        &&& keys[index] == name.0@
                        &&& forall|j: int| 0 <= j < index < keys.len() ==> keys[j] != name.0@
                    },
                    None => !keys.contains(name.0@),
                },
            decreases self.component_type_map@.len() - i,
        {
            if self.component_type_map[i].0.0 == name.0 {
                assert(keys[i as int] == name.0@);
                assert(keys.index_of_first(name.0@) == Some(i as int)) by {
                    let k = keys.index_of_first(name.0@)->0;
                    if k < i {
                        assert(keys[k] != name.0@);
                    }
                }
                return Some(i);
            }
            i = i + 1;
        }
        proof {
            if keys.contains(name.0@) {
                let k = keys.index_of_first(name.0@)->0;
                assert(keys[k] != name.0@);
            }
        }
        None
    }

    /// Whether a type is registered under `name`.
    pub fn has_component_type(&self, name: &S32) -> (b: bool)
        ensures
            b == self.lookup(name.0@) is Some,
    {
        self.position_of(name).is_some()
    }

    /// The type registered under `name`, or an error saying it was not found.
    pub fn get_component_type(&self, name: S32) -> (r: Result<ComponentType, anyhow::Error>)
        ensures
            match self.lookup(name.0@) {
                Some(t) => r matches Ok(d) && d.shape() == t.shape(),
                None => r is Err,
            },
    {
        match self.position_of(&name) {
            Some(i) => {
                let t = self.component_type_map[i].1.clone();
                assert(self.lookup(name.0@) == Some(self.component_type_map@[i as int].1));
                Ok(t)
            },
            None => {
                let message = String::from_str("Component with name ").concat(name.to_string().as_str()).concat(
                    " not found",
                );
                let r: Result<ComponentType, anyhow::Error> = message.to_error();
                assert(r is Err);
                r
            },
        }
    }

    /// Registers `definition` under its name, unless a type is already
    /// registered under that name; returns `definition` either way.
    pub fn add_raw_component_type(&mut self, definition: ComponentType) -> (r: ComponentType)
        ensures
            r == definition,
            final(self).component_definitions@ == old(self).component_definitions@,
            old(self).lookup(registry_key(definition)) is Some ==> final(self).component_type_map@ == old(self).component_type_map@,
            old(self).lookup(registry_key(definition)) is None ==> final(self).component_type_map@.len() == old(self).component_type_map@.len() + 1
                && final(self).component_type_map@.last().0.0@ == registry_key(definition)
                && final(self).component_type_map@.last().1.shape() == definition.shape()
                && final(self).component_type_map@.drop_last() == old(self).component_type_map@,
    {
        let key = S32::from_text(definition.name().as_str());
        if self.has_component_type(&key) {
            return definition;
        }
        let ghost before = self.component_type_map@;
        self.component_type_map.push((key, definition.clone()));
        assert(self.component_type_map@.drop_last() =~= before);
        definition
    }

    /// The type an alias of another component stands for (that component's
    /// type, under the alias's name), or the definition itself otherwise.
    pub fn flatten_component_type(&self, definition: ComponentType) -> (r: Result<ComponentType, anyhow::Error>)
        ensures
            match definition {
                ComponentType::Alias(ComponentField { datatype: Datatype::COMP(other), .. }) => match self.lookup(other.0@) {
                    Some(t) => r matches Ok(d) && d.shape() == t.renamed(d.declared_name())
                        && d.declared_name().0@ == registry_key(definition),
                    None => r is Err,
                },
                _ => r == Ok::<ComponentType, anyhow::Error>(definition),
            },
    {
        match &definition {
            ComponentType::Alias(ComponentField { datatype: Datatype::COMP(other), .. }) => {
                let other_type = self.get_component_type(other.clone())?;
                let new_name = S32::from_text(definition.name().as_str());
                Ok(other_type.duplicate_as(new_name))
            },
            _ => Ok(definition),
        }
    }
}

/// Law: a type added under a name that was free is what the registry then
/// holds under that name, and every other name keeps its type.
pub proof fn lemma_added_type_is_found(before: ComponentRegistry, after: ComponentRegistry, definition: ComponentType, k: Seq<char>)
    requires
        before.lookup(registry_key(definition)) is None,
        after.component_type_map@.len() == before.component_type_map@.len() + 1,
        after.component_type_map@.last().0.0@ == registry_key(definition),
        after.component_type_map@.last().1.shape() == definition.shape(),
        after.component_type_map@.drop_last() == before.component_type_map@,
    ensures
        after.lookup(registry_key(definition)) matches Some(t) && t.shape() == definition.shape(),
        k != registry_key(definition) ==> after.lookup(k) == before.lookup(k),
{
    let key = registry_key(definition);
    let n = before.component_type_map@.len();
    assert(after.keys() =~= before.keys().push(key)) by {
        assert forall|j: int| 0 <= j < n implies after.keys()[j] == before.keys()[j] by {
            assert(after.component_type_map@[j] == after.component_type_map@.drop_last()[j]);
        }
    }
    before.keys().index_of_first_ensures(key);
    after.keys().index_of_first_ensures(key);
    after.keys().index_of_first_ensures(k);
    before.keys().index_of_first_ensures(k);
    assert(after.keys()[n as int] == key);
    if let Some(i) = after.keys().index_of_first(key) {
        if i < n {
            assert(before.keys()[i] == key);
        }
    }
    if k != key {
        match before.keys().index_of_first(k) {
            Some(i) => {
                assert(after.keys()[i] == k);
                assert(after.component_type_map@[i] == before.component_type_map@[i]);
                if let Some(i2) = after.keys().index_of_first(k) {
                    if i2 < i {
                        assert(before.keys()[i2] == k);
                    }
                }
            },
            None => {
                if let Some(i2) = after.keys().index_of_first(k) {
                    if i2 < n {
                        assert(before.keys()[i2] == k);
                    }
                }
            },
        }
    }
}

} // verus!
