use station_planner::{marker_points, MapData, Point, ResourceCategory, ResourceLayer, ResourceMarker, Resources};

fn marker(name: &str, x: i64, y: i64) -> ResourceMarker {
    ResourceMarker {
        path_name: name.to_string(),
        x,
        y,
        z: 0,
        kind: None,
        purity: "normal".to_string(),
        obstructed: Some(false),
        last_check: "today".to_string(),
    }
}

fn layer(id: &str, markers: Vec<ResourceMarker>) -> ResourceLayer {
    ResourceLayer {
        layer_id: id.to_string(),
        name: id.to_string(),
        purity: Some("pure".to_string()),
        outside_color: "#000".to_string(),
        inside_color: "#fff".to_string(),
        icon: "icon".to_string(),
        markers,
    }
}

fn sample_map() -> MapData {
    let cat_a = ResourceCategory {
        name: "a".to_string(),
        kind: None,
        options: vec![layer("l1", vec![marker("m1", 1, 2), marker("m2", 3, 4)]), layer("l2", vec![])],
    };
    let cat_b = ResourceCategory {
        name: "b".to_string(),
        kind: Some("t".to_string()),
        options: vec![layer("l3", vec![marker("m3", -5, 6)])],
    };
    let empty = Resources { tab_id: "t0".to_string(), name: "none".to_string(), options: vec![] };
    let tab = Resources { tab_id: "t1".to_string(), name: "res".to_string(), options: vec![cat_a, cat_b] };
    MapData { options: vec![empty, tab], version: 1, last_build: "b".to_string() }
}

#[test]
fn extract_flattens_in_order() {
    let (layers, markers) = sample_map().extract_layers_and_markers();
    let ids: Vec<&str> = layers.iter().map(|l| l.layer_id.as_str()).collect();
    assert_eq!(ids, vec!["l1", "l2", "l3"]);
    let names: Vec<&str> = markers.iter().map(|m| m.path_name.as_str()).collect();
    assert_eq!(names, vec!["m1", "m2", "m3"]);
    assert_eq!(layers[0].markers.len(), 2);
    assert_eq!(layers[2].markers[0].x, -5);
    assert_eq!(layers[0].purity, Some("pure".to_string()));
}

#[test]
fn extract_from_empty_map() {
    let m = MapData { options: vec![], version: 0, last_build: String::new() };
    let (layers, markers) = m.extract_layers_and_markers();
    assert!(layers.is_empty());
    assert!(markers.is_empty());
}

#[test]
fn marker_positions() {
    let (_, markers) = sample_map().extract_layers_and_markers();
    assert_eq!(marker_points(&markers), vec![Point { x: 1, y: 2 }, Point { x: 3, y: 4 }, Point { x: -5, y: 6 }]);
}
