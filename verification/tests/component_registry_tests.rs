use mosaic::component_registry::ComponentRegistry;
use mosaic::datatypes::{ComponentField, ComponentType, Datatype, S32};

fn field(name: &str, datatype: Datatype) -> ComponentField {
    ComponentField { name: S32::from_text(name), datatype }
}

fn position() -> ComponentType {
    ComponentType::Product {
        name: S32::from_text("Position"),
        fields: vec![field("x", Datatype::I32), field("y", Datatype::I32)],
    }
}

#[test]
fn registered_types_are_found_by_name() {
    let mut reg = ComponentRegistry::new();
    assert!(!reg.has_component_type(&S32::from_text("Position")));
    assert_eq!(reg.add_raw_component_type(position()), position());
    assert!(reg.has_component_type(&S32::from_text("Position")));
    assert_eq!(reg.get_component_type(S32::from_text("Position")).unwrap(), position());
    let missing = reg.get_component_type(S32::from_text("Missing"));
    assert_eq!(missing.unwrap_err().to_string(), "Component with name Missing not found");
}

#[test]
fn the_first_registration_of_a_name_stays() {
    let mut reg = ComponentRegistry::new();
    reg.add_raw_component_type(position());
    let other = ComponentType::Product { name: S32::from_text("Position"), fields: vec![] };
    assert_eq!(reg.add_raw_component_type(other.clone()), other);
    assert_eq!(reg.get_component_type(S32::from_text("Position")).unwrap(), position());
    assert_eq!(reg.component_type_map.len(), 1);
}

#[test]
fn aliases_of_components_are_flattened() {
    let mut reg = ComponentRegistry::new();
    reg.add_raw_component_type(position());
    let place = ComponentType::Alias(field("Place", Datatype::COMP(S32::from_text("Position"))));
    assert_eq!(
        reg.flatten_component_type(place).unwrap(),
        ComponentType::Product {
            name: S32::from_text("Place"),
            fields: vec![field("x", Datatype::I32), field("y", Datatype::I32)],
        }
    );
    let dangling = ComponentType::Alias(field("Ghost", Datatype::COMP(S32::from_text("Nowhere"))));
    assert!(reg.flatten_component_type(dangling).is_err());
    let plain = ComponentType::Alias(field("Age", Datatype::U8));
    assert_eq!(reg.flatten_component_type(plain.clone()).unwrap(), plain);
}

#[test]
fn clearing_forgets_everything() {
    let mut reg = ComponentRegistry::new();
    reg.add_raw_component_type(position());
    reg.component_definitions.push("Position: { x: i32, y: i32 };".to_string());
    reg.clear();
    assert!(reg.component_type_map.is_empty());
    assert!(reg.component_definitions.is_empty());
    assert!(!reg.has_component_type(&S32::from_text("Position")));
}
