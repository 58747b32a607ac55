use mosaic::collage::{
    all_tiles, arrows_from, descriptors_from, extensions_from, gather, leave_components,
    sources_from, take_arrows, take_components, take_descriptors, take_extensions, take_objects,
    targets_from, Collage, Cut, Pick,
};
use mosaic::either::EntryExistsResult;

#[test]
fn cut_codes() {
    assert_eq!(Cut::Include(vec![]).into_u8(), 0);
    assert_eq!(Cut::Exclude(vec![]).into_u8(), 1);
    assert_eq!(Cut::Objects.into_u8(), 2);
    assert_eq!(Cut::Arrows.into_u8(), 3);
    assert_eq!(Cut::Descriptors.into_u8(), 4);
    assert_eq!(Cut::Extensions.into_u8(), 5);
}

#[test]
fn picks_wrap_the_inner_collage() {
    assert!(matches!(*all_tiles(), Collage::Tiles(None)));
    assert!(matches!(*arrows_from(all_tiles()), Collage::Pick(Pick::Arrows, _)));
    assert!(matches!(*descriptors_from(all_tiles()), Collage::Pick(Pick::Descriptors, _)));
    assert!(matches!(*extensions_from(all_tiles()), Collage::Pick(Pick::Extensions, _)));
    assert!(matches!(*targets_from(all_tiles()), Collage::Pick(Pick::Targets, _)));
    assert!(matches!(*sources_from(all_tiles()), Collage::Pick(Pick::Sources, _)));
}

#[test]
fn cuts_wrap_the_inner_collage() {
    assert!(matches!(*take_arrows(all_tiles()), Collage::Cut(Cut::Arrows, _)));
    assert!(matches!(*take_descriptors(all_tiles()), Collage::Cut(Cut::Descriptors, _)));
    assert!(matches!(*take_extensions(all_tiles()), Collage::Cut(Cut::Extensions, _)));
    assert!(matches!(*take_objects(all_tiles()), Collage::Cut(Cut::Objects, _)));
    match *take_components(&["Position", "Label"], arrows_from(all_tiles())) {
        Collage::Cut(Cut::Include(names), inner) => {
            assert_eq!(names, vec!["Position".to_string(), "Label".to_string()]);
            assert!(matches!(*inner, Collage::Pick(Pick::Arrows, _)));
        }
        _ => panic!("expected an include cut"),
    }
    match *leave_components(&["Label"], all_tiles()) {
        Collage::Cut(Cut::Exclude(names), inner) => {
            assert_eq!(names, vec!["Label".to_string()]);
            assert!(matches!(*inner, Collage::Tiles(None)));
        }
        _ => panic!("expected an exclude cut"),
    }
}

#[test]
fn gather_keeps_its_parts_in_order() {
    match *gather(vec![take_arrows(all_tiles()), all_tiles()]) {
        Collage::Gather(parts) => {
            assert_eq!(parts.len(), 2);
            assert!(matches!(*parts[0], Collage::Cut(Cut::Arrows, _)));
            assert!(matches!(*parts[1], Collage::Tiles(None)));
        }
        _ => panic!("expected a gather"),
    }
}

#[test]
fn entry_results_unwrap_to_their_entry() {
    assert_eq!(EntryExistsResult::Existed(3u32).unwrap(), 3);
    assert_eq!(EntryExistsResult::Inserted(String::from("x")).unwrap(), "x");
}
