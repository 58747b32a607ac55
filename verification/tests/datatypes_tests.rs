use mosaic::datatypes::{ComponentField, ComponentType, Datatype, S32};

fn field(name: &str, datatype: Datatype) -> ComponentField {
    ComponentField { name: S32::from_text(name), datatype }
}

fn position() -> ComponentType {
    ComponentType::Product {
        name: S32::from_text("Position"),
        fields: vec![field("x", Datatype::I32), field("y", Datatype::COMP(S32::from_text("Length")))],
    }
}

#[test]
fn aliases_and_products_are_told_apart() {
    let alias = ComponentType::Alias(field("self", Datatype::U8));
    assert!(alias.is_alias());
    assert!(!alias.is_product());
    assert!(position().is_product());
    assert!(!position().is_alias());
}

#[test]
fn names_drop_their_padding() {
    assert_eq!(position().name(), "Position");
    assert_eq!(ComponentType::Alias(field("Label", Datatype::S32)).name(), "Label");
}

#[test]
fn fields_are_listed_in_order() {
    assert_eq!(position().get_fields(), vec![field("x", Datatype::I32), field("y", Datatype::COMP(S32::from_text("Length")))]);
    assert_eq!(position().get_field_names(), vec![S32::from_text("x"), S32::from_text("y")]);
    let alias = ComponentType::Alias(field("self", Datatype::BOOL));
    assert_eq!(alias.get_fields(), vec![field("self", Datatype::BOOL)]);
    assert_eq!(alias.get_field_names(), vec![S32::from_text("self")]);
}

#[test]
fn fields_are_found_by_name() {
    let p = position();
    assert_eq!(p.get_field(S32::from_text("y")), Some(&field("y", Datatype::COMP(S32::from_text("Length")))));
    assert_eq!(p.get_field(S32::from_text("z")), None);
    let alias = ComponentType::Alias(field("self", Datatype::I64));
    assert_eq!(alias.get_field(S32::from_text("anything")), Some(&field("self", Datatype::I64)));
    let named = ComponentType::Alias(field("value", Datatype::I64));
    assert_eq!(named.get_field(S32::from_text("value")), None);
}

#[test]
fn duplicates_keep_the_shape_under_a_new_name() {
    let copy = position().duplicate_as(S32::from_text("Point"));
    assert_eq!(
        copy,
        ComponentType::Product {
            name: S32::from_text("Point"),
            fields: vec![field("x", Datatype::I32), field("y", Datatype::COMP(S32::from_text("Length")))],
        }
    );
    let alias = ComponentType::Alias(field("self", Datatype::F64)).duplicate_as(S32::from_text("Speed"));
    assert_eq!(alias, ComponentType::Alias(field("Speed", Datatype::F64)));
    assert_eq!(Datatype::COMP(S32::from_text("A")).clone(), Datatype::COMP(S32::from_text("A")));
}
