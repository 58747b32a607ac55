use mosaic::datatypes::Str;
use mosaic::logging::Logging;
use mosaic::tile::TileType;
use mosaic::traversal::{Traversal, TraversalDirection};
use mosaic::traversal_funnel::Traversal as FunnelTraversal;

#[test]
fn messages_become_errors() {
    let r: anyhow::Result<u32> = "no such tile".to_error();
    assert_eq!(r.unwrap_err().to_string(), "no such tile");
    let r: anyhow::Result<()> = String::from("bad type").to_error();
    assert_eq!(r.unwrap_err().to_string(), "bad type");
}

#[test]
fn traversal_defaults_go_forward() {
    assert_eq!(TraversalDirection::default(), TraversalDirection::Forward);
    assert_eq!(FunnelTraversal::default(), FunnelTraversal::Forward);
    let t = Traversal::Include { components: &["Parent"] };
    assert!(matches!(t, Traversal::Include { components } if components == ["Parent"]));
}

#[test]
fn tile_types_and_strings_compare_by_value() {
    assert_eq!(TileType::Arrow { source: 1, target: 2 }, TileType::Arrow { source: 1, target: 2 });
    assert!(TileType::Object < TileType::Arrow { source: 0, target: 0 });
    assert!(Str(1) < Str(2));
    assert_eq!(Str(3).clone(), Str(3));
}

#[test]
fn tile_endpoints() {
    let arrow = TileType::Arrow { source: 3, target: 4 };
    assert_eq!(arrow.source_id(9), 3);
    assert_eq!(arrow.target_id(9), 4);
    assert_eq!(TileType::Object.source_id(9), 9);
    assert_eq!(TileType::Object.target_id(9), 9);
    assert_eq!(TileType::Descriptor { subject: 2 }.source_id(9), 9);
    assert_eq!(TileType::Descriptor { subject: 2 }.target_id(9), 2);
    assert_eq!(TileType::Extension { subject: 2 }.source_id(9), 2);
    assert_eq!(TileType::Extension { subject: 2 }.target_id(9), 9);
}

#[test]
fn tile_types_from_endpoints() {
    assert_eq!(TileType::from_endpoints(5, 5, 5), TileType::Object);
    assert_eq!(TileType::from_endpoints(5, 5, 7), TileType::Descriptor { subject: 7 });
    assert_eq!(TileType::from_endpoints(5, 7, 5), TileType::Extension { subject: 7 });
    assert_eq!(TileType::from_endpoints(5, 6, 7), TileType::Arrow { source: 6, target: 7 });
    assert_eq!(TileType::from_endpoints(5, 6, 6), TileType::Arrow { source: 6, target: 6 });
    for t in [
        TileType::Object,
        TileType::Arrow { source: 1, target: 2 },
        TileType::Arrow { source: 1, target: 1 },
        TileType::Descriptor { subject: 1 },
        TileType::Extension { subject: 2 },
    ] {
        assert_eq!(TileType::from_endpoints(9, t.source_id(9), t.target_id(9)), t);
    }
    let back_onto_itself = TileType::Arrow { source: 9, target: 2 };
    assert_eq!(
        TileType::from_endpoints(9, back_onto_itself.source_id(9), back_onto_itself.target_id(9)),
        TileType::Descriptor { subject: 2 }
    );
}
