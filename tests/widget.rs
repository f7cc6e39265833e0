use ecs::{Blink, WidgetId};

#[test]
fn widget_id_new_keeps_its_site() {
    let w = WidgetId::new("src/ui.rs", 12, 5);
    assert_eq!(w.filename, "src/ui.rs");
    assert_eq!(w.line, 12);
    assert_eq!(w.column, 5);
    assert_eq!(w, WidgetId::new("src/ui.rs", 12, 5));
    assert_ne!(w, WidgetId::new("src/ui.rs", 13, 5));
}

#[test]
fn widget_id_dummy_names_no_site() {
    let d = WidgetId::dummy();
    assert_eq!(d.filename, "n/a");
    assert_eq!(d.line, 666666);
    assert_eq!(d.column, 666666);
}

#[test]
fn blink_kinds_differ() {
    assert_ne!(Blink::Damaged, Blink::Threat);
    assert_eq!(Blink::Threat, Blink::Threat);
}
