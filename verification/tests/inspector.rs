use sentinel::inspector::{
    batch_queries, listen_for_keys, DebugInspector, InspectorCache, InspectorEntityData,
    InspectorKey, KeyEvent,
};

fn shown(bits: u64) -> String {
    bevy::ecs::entity::Entity::from_bits(bits).to_string()
}

fn cache_with(entities: &[(u64, Option<&str>)]) -> InspectorCache {
    let mut c = InspectorCache::default();
    let list: Vec<(u64, Option<String>)> =
        entities.iter().map(|(e, n)| (*e, n.map(String::from))).collect();
    c.record_names(&list);
    c
}

#[test]
fn format_line_shows_the_name_in_parentheses() {
    let named = InspectorEntityData::new(Some(String::from("Player 1")));
    assert_eq!(named.format_line(7), format!("{} (Player 1)", shown(7)));
    let unnamed = InspectorEntityData::new(None);
    assert_eq!(unnamed.format_line(7), shown(7));
}

#[test]
fn widget_lists_entities_in_order_and_selects_the_first() {
    let cache = cache_with(&[(9, Some("Nine")), (3, None), (5, Some("Five"))]);
    let mut inspector = DebugInspector::default();
    let widget = inspector.construct_widget(&cache);
    assert_eq!(
        widget.entity_lines,
        vec![shown(3), format!("{} (Five)", shown(5)), format!("{} (Nine)", shown(9))]
    );
    assert_eq!(widget.entity_selected, Some(0));
    assert_eq!(inspector.entity_selected(), Some(3));
    assert!(widget.component_lines.is_empty());
    assert_eq!(widget.component_selected, None);
    assert_eq!(inspector.component_selected(), None);
}

#[test]
fn widget_lists_the_components_of_the_selected_entity() {
    let mut cache = cache_with(&[(3, None), (5, Some("Five"))]);
    cache.record_components(
        3,
        &vec![(12, String::from("Transform")), (4, String::from("Name")), (12, String::from("Transform2"))],
    );
    let mut inspector = DebugInspector::default();
    let widget = inspector.construct_widget(&cache);
    assert_eq!(widget.component_lines, vec![String::from("Name"), String::from("Transform2")]);
    assert_eq!(widget.component_selected, Some(0));
    assert_eq!(inspector.component_selected(), Some(4));
}

#[test]
fn recording_names_replaces_a_name_and_keeps_components() {
    let mut cache = cache_with(&[(3, Some("Old"))]);
    cache.record_components(3, &vec![(1, String::from("A"))]);
    cache.record_names(&vec![(3, Some(String::from("New"))), (2, None)]);
    let mut inspector = DebugInspector::default();
    let widget = inspector.construct_widget(&cache);
    assert_eq!(widget.entity_lines, vec![shown(2), format!("{} (New)", shown(3))]);
    assert_eq!(inspector.entity_selected(), Some(2));
    assert!(widget.component_lines.is_empty());
}

#[test]
fn components_of_an_unseen_entity_get_an_entry() {
    let mut cache = InspectorCache::default();
    cache.record_components(8, &vec![(2, String::from("B"))]);
    let mut inspector = DebugInspector::default();
    let widget = inspector.construct_widget(&cache);
    assert_eq!(widget.entity_lines, vec![shown(8)]);
    assert_eq!(widget.component_lines, vec![String::from("B")]);
}

#[test]
fn navigation_moves_through_entities_and_stops_at_the_ends() {
    let cache = cache_with(&[(3, None), (5, None), (9, None)]);
    let mut inspector = DebugInspector::default();
    inspector.navigate(&cache, InspectorKey::Down);
    assert_eq!(inspector.entity_selected(), None);
    inspector.construct_widget(&cache);
    inspector.navigate(&cache, InspectorKey::Up);
    assert_eq!(inspector.entity_selected(), Some(3));
    inspector.navigate(&cache, InspectorKey::Down);
    assert_eq!(inspector.entity_selected(), Some(5));
    inspector.navigate(&cache, InspectorKey::Down);
    assert_eq!(inspector.entity_selected(), Some(9));
    inspector.navigate(&cache, InspectorKey::Down);
    assert_eq!(inspector.entity_selected(), Some(9));
    inspector.navigate(&cache, InspectorKey::Other);
    assert_eq!(inspector.entity_selected(), Some(9));
    inspector.navigate(&cache, InspectorKey::Up);
    inspector.navigate(&cache, InspectorKey::Down);
    assert_eq!(inspector.entity_selected(), Some(9));
}

#[test]
fn keys_move_only_the_inspectors_of_their_window() {
    let cache = cache_with(&[(3, None), (5, None), (9, None)]);
    let mut a = DebugInspector::default();
    a.construct_widget(&cache);
    let b = a;
    let c = DebugInspector::default();
    let mut inspectors = vec![(a, Some(100)), (b, Some(200)), (c, Some(100))];
    let events = vec![
        KeyEvent { key: InspectorKey::Down, pressed: true, window: 100 },
        KeyEvent { key: InspectorKey::Down, pressed: false, window: 100 },
        KeyEvent { key: InspectorKey::Down, pressed: true, window: 100 },
        KeyEvent { key: InspectorKey::Up, pressed: true, window: 300 },
    ];
    listen_for_keys(&events, &mut inspectors, &cache);
    assert_eq!(inspectors[0].0.entity_selected(), Some(9));
    assert_eq!(inspectors[1].0.entity_selected(), Some(3));
    assert_eq!(inspectors[2].0.entity_selected(), None);
}

#[test]
fn batch_queries_queries_the_selected_entities() {
    let cache0 = cache_with(&[(3, None), (5, None)]);
    let mut a = DebugInspector::default();
    a.construct_widget(&cache0);
    let b = DebugInspector::default();
    let mut c = a;
    c.navigate(&cache0, InspectorKey::Down);
    let mut cache = cache_with(&[(3, None)]);
    cache.add_query(&a);
    batch_queries(&mut cache, &vec![a, b, c]);
    assert_eq!(cache.query_entities().clone(), vec![3, 5]);
    cache.clear_queries();
    assert!(cache.query_entities().is_empty());
}

#[test]
fn format_line_renders_entities_as_the_engine_does() {
    let unnamed = InspectorEntityData::new(None);
    assert_eq!(unnamed.format_line(1), "PLACEHOLDER");
    assert_eq!(unnamed.format_line(0xFFFF_FFFF), "0v0");
    assert_eq!(unnamed.format_line(0xFFFF_FFFE), "1v0");
    assert_eq!(unnamed.format_line((3u64 << 32) | 0xFFFF_FFF0), "15v3");
    assert_eq!(unnamed.format_line((1u64 << 32) | 1), "4294967294v1");
}
