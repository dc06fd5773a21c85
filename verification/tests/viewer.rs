//! End-to-end tests of the viewer: construction, updates, navigation and
//! actions.

use jsonviewer::displayvalue::DisplayValue;
use jsonviewer::path::ArrayPath;
use jsonviewer::path::ObjectPath;
use jsonviewer::path::Path;
use jsonviewer::JsonViewer;
use jsonviewer::ValueVariant;

fn scalar(text: &str) -> ValueVariant {
    ValueVariant::Scalar(text.to_string())
}

fn arr(items: Vec<ValueVariant>) -> ValueVariant {
    ValueVariant::Array(None, items)
}

fn obj(entries: Vec<(&str, ValueVariant)>) -> ValueVariant {
    ValueVariant::Object(
        None,
        entries.into_iter().map(|(k, v)| (k.to_string(), v)).collect(),
    )
}

fn int_array(n: u64) -> ValueVariant {
    arr((1..=n).map(|i| scalar(&i.to_string())).collect())
}

#[test]
fn initial_object_has_toggle_and_member_points() {
    // {"foo": "bar"}: the addressable points are the toggle and the member.
    let v = obj(vec![("foo", scalar("bar"))]);
    let mut viewer = JsonViewer::new(&v);
    match &viewer.value {
        DisplayValue::Object(o) => {
            assert!(o.extended);
            assert_eq!(o.members.len(), 1);
            assert_eq!(o.members[0].0, "foo");
        }
        _ => panic!("expected an object"),
    }
    assert!(matches!(
        viewer.active_element,
        Path::Object(ObjectPath::Toggle)
    ));
    assert!(viewer.select_next().is_ok());
    match &viewer.active_element {
        Path::Object(ObjectPath::Item(k, sub)) => {
            assert_eq!(k, "foo");
            assert!(matches!(**sub, Path::Scalar));
        }
        other => panic!("unexpected point {:?}", path_kind(other)),
    }
    assert!(viewer.select_next().is_err());
}

fn path_kind(p: &Path) -> &'static str {
    match p {
        Path::Scalar => "scalar",
        Path::Object(ObjectPath::Toggle) => "object toggle",
        Path::Object(ObjectPath::Item(_, _)) => "object item",
        Path::Array(ArrayPath::Toggle) => "array toggle",
        Path::Array(ArrayPath::Shrink) => "array shrink",
        Path::Array(ArrayPath::Grow) => "array grow",
        Path::Array(ArrayPath::Item(_, _)) => "array item",
    }
}

#[test]
fn update_flags_changed_member_and_not_fresh_one() {
    // {"foo": "bar"} updated to {"foo": "baz", "qux": "1"}: foo is flagged
    // as changed, the freshly constructed qux is not.
    let v1 = obj(vec![("foo", scalar("bar"))]);
    let v2 = obj(vec![("foo", scalar("baz")), ("qux", scalar("1"))]);
    let mut viewer = JsonViewer::new(&v1);
    viewer.update(&v2);
    let o = viewer.value.unwrap_object_ref();
    assert_eq!(o.members.len(), 2);
    assert_eq!(o.members[0].0, "foo");
    let foo = o.members[0].1.unwrap_scalar_ref();
    assert_eq!(foo.value, "baz");
    assert!(foo.changed);
    assert_eq!(o.members[1].0, "qux");
    let qux = o.members[1].1.unwrap_scalar_ref();
    assert_eq!(qux.value, "1");
    assert!(!qux.changed);
}

fn assert_no_flags(value: &DisplayValue) {
    match value {
        DisplayValue::Scalar(s) => assert!(!s.changed),
        DisplayValue::Object(o) => {
            assert!(!o.description_changed);
            for (_, child) in o.members.iter() {
                assert_no_flags(child);
            }
        }
        DisplayValue::Array(a) => {
            assert!(!a.length_changed);
            assert!(!a.description_changed);
            for child in a.values.iter() {
                assert_no_flags(child);
            }
        }
    }
}

#[test]
fn update_twice_with_same_value_sets_no_flags() {
    // Idempotence: a second update with an unchanged value highlights
    // nothing anywhere in the tree.
    let v0 = obj(vec![("k", scalar("old"))]);
    let v = obj(vec![
        ("a", scalar("1")),
        ("b", arr(vec![scalar("x"), scalar("y")])),
        ("c", obj(vec![("inner", scalar("z"))])),
    ]);
    let mut viewer = JsonViewer::new(&v0);
    viewer.update(&v);
    viewer.update(&v);
    assert_no_flags(&viewer.value);
}

#[test]
fn fresh_construction_sets_no_flags() {
    let v = obj(vec![("a", arr(vec![scalar("1")])), ("b", scalar("2"))]);
    let viewer = JsonViewer::new(&v);
    assert_no_flags(&viewer.value);
}

#[test]
fn collapsed_member_stays_collapsed_across_update() {
    // Fold-state preservation: collapse the object at key "a", update with
    // a same-shape, differently-valued child, and "a" stays collapsed.
    let v1 = obj(vec![("a", obj(vec![("x", scalar("1"))])), ("b", scalar("s"))]);
    let v2 = obj(vec![("a", obj(vec![("x", scalar("2"))])), ("b", scalar("s"))]);
    let mut viewer = JsonViewer::new(&v1);
    {
        let root = viewer.value.unwrap_object_ref_mut();
        assert_eq!(root.members[0].0, "a");
        let a = root.members[0].1.unwrap_object_ref_mut();
        a.toggle_visibility();
        assert!(!a.extended);
    }
    viewer.update(&v2);
    let root = viewer.value.unwrap_object_ref();
    let a = root.members[0].1.unwrap_object_ref();
    assert!(!a.extended, "the collapsed member must stay collapsed");
    let x = a.members[0].1.unwrap_scalar_ref();
    assert_eq!(x.value, "2");
    assert!(x.changed);
}

#[test]
fn fresh_array_shows_at_most_three_items() {
    // Bounded expansion: visible count starts at min(3, N).
    let five = DisplayValue::new(&int_array(5));
    assert_eq!(five.unwrap_array_ref().num_extended, 3);
    let two = DisplayValue::new(&int_array(2));
    assert_eq!(two.unwrap_array_ref().num_extended, 2);
    let zero = DisplayValue::new(&arr(vec![]));
    assert_eq!(zero.unwrap_array_ref().num_extended, 0);
}

#[test]
fn grow_and_shrink_respect_bounds() {
    let mut value = DisplayValue::new(&int_array(5));
    let a = value.unwrap_array_ref_mut();
    assert!(a.can_grow());
    assert!(a.can_shrink());
    a.grow();
    a.grow();
    assert_eq!(a.num_extended, 5);
    assert!(!a.can_grow());
    while a.can_shrink() {
        a.shrink();
    }
    assert_eq!(a.num_extended, 0);
    assert!(!a.can_shrink());
    assert!(a.can_grow());
}

#[test]
fn growing_past_the_end_fails_through_the_viewer() {
    // [1,2,3,4,5]: two grows reach 5/5; the third is not applicable.
    let v = int_array(5);
    let mut viewer = JsonViewer::new(&v);
    // Toggle, three visible items, Shrink, then Grow.
    for _ in 0..5 {
        viewer.select_next().unwrap();
    }
    assert!(matches!(viewer.active_element, Path::Array(ArrayPath::Grow)));
    assert!(viewer.toggle_active_element().is_ok());
    assert!(viewer.toggle_active_element().is_ok());
    assert_eq!(viewer.value.unwrap_array_ref().num_extended, 5);
    assert!(viewer.toggle_active_element().is_err());
    assert_eq!(viewer.value.unwrap_array_ref().num_extended, 5);
}

#[test]
fn navigation_visits_every_point_once_and_reverses() {
    // {"a": [1,2], "b": "x"} at two levels: repeated select_next walks
    // every addressable point exactly once, and select_previous replays
    // the same points backwards.
    let v = obj(vec![("a", int_array(2)), ("b", scalar("x"))]);
    let mut viewer = JsonViewer::new(&v);
    let mut forward: Vec<String> = vec![format!("{:?}", describe(&viewer.active_element))];
    while viewer.select_next().is_ok() {
        forward.push(format!("{:?}", describe(&viewer.active_element)));
    }
    // Root toggle; the array's toggle, two items, shrink, grow; the scalar.
    assert_eq!(forward.len(), 7);
    let unique: std::collections::BTreeSet<String> = forward.iter().cloned().collect();
    assert_eq!(unique.len(), forward.len(), "a point was visited twice");
    let mut backward: Vec<String> = vec![format!("{:?}", describe(&viewer.active_element))];
    while viewer.select_previous().is_ok() {
        backward.push(format!("{:?}", describe(&viewer.active_element)));
    }
    backward.reverse();
    assert_eq!(forward, backward);
}

fn describe(p: &Path) -> String {
    match p {
        Path::Scalar => "s".to_string(),
        Path::Object(ObjectPath::Toggle) => "ot".to_string(),
        Path::Object(ObjectPath::Item(k, sub)) => format!("o[{}].{}", k, describe(sub)),
        Path::Array(ArrayPath::Toggle) => "at".to_string(),
        Path::Array(ArrayPath::Shrink) => "a-".to_string(),
        Path::Array(ArrayPath::Grow) => "a+".to_string(),
        Path::Array(ArrayPath::Item(i, sub)) => format!("a[{}].{}", i, describe(sub)),
    }
}

#[test]
fn navigation_fails_only_at_the_boundaries() {
    let v = scalar("just one");
    let mut viewer = JsonViewer::new(&v);
    assert!(matches!(viewer.active_element, Path::Scalar));
    assert!(viewer.select_next().is_err());
    assert!(viewer.select_previous().is_err());
}

#[test]
fn shrunk_array_repairs_the_active_address() {
    // Repair safety: address a nested array item, shrink the array under
    // it by an update, and the address snaps to a still-valid point.
    let v1 = obj(vec![("a", int_array(5))]);
    let mut viewer = JsonViewer::new(&v1);
    // Toggle -> a's toggle -> item 0 -> item 1 -> item 2.
    for _ in 0..4 {
        viewer.select_next().unwrap();
    }
    match &viewer.active_element {
        Path::Object(ObjectPath::Item(k, sub)) => {
            assert_eq!(k, "a");
            assert!(matches!(**sub, Path::Array(ArrayPath::Item(2, _))));
        }
        other => panic!("unexpected point {}", describe(other)),
    }
    let v2 = obj(vec![("a", int_array(1))]);
    viewer.update(&v2);
    match &viewer.active_element {
        Path::Object(ObjectPath::Item(k, sub)) => {
            assert_eq!(k, "a");
            assert!(matches!(**sub, Path::Array(ArrayPath::Toggle)));
        }
        other => panic!("unexpected point {}", describe(other)),
    }
    // The repaired address is live: navigation still works.
    assert!(viewer.select_next().is_ok());
}

#[test]
fn removed_key_repairs_to_the_container_toggle() {
    let v1 = obj(vec![("a", scalar("1")), ("b", scalar("2"))]);
    let mut viewer = JsonViewer::new(&v1);
    viewer.select_next().unwrap();
    viewer.select_next().unwrap();
    match &viewer.active_element {
        Path::Object(ObjectPath::Item(k, _)) => assert_eq!(k, "b"),
        other => panic!("unexpected point {}", describe(other)),
    }
    let v2 = obj(vec![("a", scalar("1"))]);
    viewer.update(&v2);
    assert!(matches!(
        viewer.active_element,
        Path::Object(ObjectPath::Toggle)
    ));
}

#[test]
fn toggle_collapses_and_expands_the_root() {
    let v = obj(vec![("a", scalar("1"))]);
    let mut viewer = JsonViewer::new(&v);
    assert!(viewer.toggle_active_element().is_ok());
    assert!(!viewer.value.unwrap_object_ref().extended);
    // Collapsed: the only point left is the toggle itself.
    assert!(viewer.select_next().is_err());
    assert!(viewer.toggle_active_element().is_ok());
    assert!(viewer.value.unwrap_object_ref().extended);
}

#[test]
fn acting_on_a_scalar_point_fails() {
    let v = scalar("leaf");
    let mut viewer = JsonViewer::new(&v);
    assert!(viewer.toggle_active_element().is_err());
}

#[test]
fn variant_change_to_scalar_forces_the_changed_flag() {
    let v1 = obj(vec![("k", scalar("1"))]);
    let v2 = scalar("now a scalar");
    let mut viewer = JsonViewer::new(&v1);
    viewer.update(&v2);
    let s = viewer.value.unwrap_scalar_ref();
    assert_eq!(s.value, "now a scalar");
    assert!(s.changed);
}

#[test]
fn scalar_update_flags_only_real_changes() {
    let mut value = DisplayValue::new(&scalar("same"));
    value = value.update(&scalar("same"));
    assert!(!value.unwrap_scalar_ref().changed);
    value = value.update(&scalar("different"));
    assert!(value.unwrap_scalar_ref().changed);
    value = value.update(&scalar("different"));
    assert!(!value.unwrap_scalar_ref().changed);
}

#[test]
fn members_are_sorted_by_key() {
    let v = obj(vec![("zeta", scalar("1")), ("alpha", scalar("2")), ("mid", scalar("3"))]);
    let value = DisplayValue::new(&v);
    let o = value.unwrap_object_ref();
    let keys: Vec<&str> = o.members.iter().map(|(k, _)| k.as_str()).collect();
    assert_eq!(keys, vec!["alpha", "mid", "zeta"]);
}

#[test]
fn array_update_keeps_fold_state_and_flags_length() {
    let mut value = DisplayValue::new(&int_array(5));
    value.unwrap_array_ref_mut().grow();
    assert_eq!(value.unwrap_array_ref().num_extended, 4);
    let updated = value.update(&int_array(2));
    let a = updated.unwrap_array_ref();
    assert_eq!(a.values.len(), 2);
    // The visible count never grows by itself, and shrinks to the length.
    assert_eq!(a.num_extended, 2);
    assert!(a.length_changed);
    assert!(a.extended);
}

#[test]
fn reset_discards_change_flags() {
    let v1 = obj(vec![("k", scalar("1"))]);
    let v2 = obj(vec![("k", scalar("2"))]);
    let mut viewer = JsonViewer::new(&v1);
    viewer.update(&v2);
    assert!(viewer.value.unwrap_object_ref().members[0].1.unwrap_scalar_ref().changed);
    viewer.reset(&v2);
    assert_no_flags(&viewer.value);
}

#[test]
fn description_changes_are_flagged() {
    let v1 = ValueVariant::Object(Some("one".to_string()), vec![]);
    let v2 = ValueVariant::Object(Some("two".to_string()), vec![]);
    let mut value = DisplayValue::new(&v1);
    assert!(!value.unwrap_object_ref().description_changed);
    value = value.update(&v2);
    assert!(value.unwrap_object_ref().description_changed);
    assert_eq!(value.unwrap_object_ref().description.as_deref(), Some("two"));
    value = value.update(&v2);
    assert!(!value.unwrap_object_ref().description_changed);
}

#[test]
fn duplicate_keys_keep_the_last_value() {
    let v = ValueVariant::Object(
        None,
        vec![
            ("k".to_string(), scalar("first")),
            ("k".to_string(), scalar("second")),
        ],
    );
    let value = DisplayValue::new(&v);
    let o = value.unwrap_object_ref();
    assert_eq!(o.members.len(), 1);
    assert_eq!(o.members[0].1.unwrap_scalar_ref().value, "second");
}

#[test]
fn keys_are_ordered_by_code_point() {
    // "é" (U+00E9) sorts after every ASCII key, byte-wise and
    // code-point-wise alike.
    let v = obj(vec![("é", scalar("1")), ("z", scalar("2")), ("a", scalar("3"))]);
    let value = DisplayValue::new(&v);
    let o = value.unwrap_object_ref();
    let keys: Vec<&str> = o.members.iter().map(|(k, _)| k.as_str()).collect();
    assert_eq!(keys, vec!["a", "z", "é"]);
}

#[test]
fn empty_containers_offer_only_their_toggle() {
    let mut viewer = JsonViewer::new(&obj(vec![]));
    assert!(matches!(
        viewer.active_element,
        Path::Object(ObjectPath::Toggle)
    ));
    assert!(viewer.select_next().is_err());
    // An extended empty array still offers its shrink and grow points,
    // though neither action applies.
    let mut arr_viewer = JsonViewer::new(&arr(vec![]));
    assert!(arr_viewer.select_next().is_ok());
    assert!(matches!(
        arr_viewer.active_element,
        Path::Array(ArrayPath::Shrink)
    ));
    assert!(arr_viewer.toggle_active_element().is_err());
    assert!(arr_viewer.select_next().is_ok());
    assert!(matches!(arr_viewer.active_element, Path::Array(ArrayPath::Grow)));
    assert!(arr_viewer.toggle_active_element().is_err());
    assert!(arr_viewer.select_next().is_err());
}
