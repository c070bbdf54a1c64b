use checkbe::diagnostics::{Diagnostics, Severity};
use checkbe::names::NameMap;
use checkbe::span::Span;

#[test]
fn counts_split_by_severity() {
    let mut d = Diagnostics::new();
    d.warning(None, "w1".to_string());
    d.error(Some(Span::new(2, 3)), "e1".to_string());
    d.warning(Some(Span::new(4, 1)), "w2".to_string());
    assert_eq!(d.warnings_count(), 2);
    assert_eq!(d.errors_count(), 1);
    assert_eq!(d.warnings_count() + d.errors_count(), d.items().len());
    assert!(d.has_errors());
    assert_eq!(d.items()[1].severity, Severity::Error);
    assert_eq!(d.items()[1].span, Some(Span::new(2, 3)));
    assert_eq!(d.items()[2].message, "w2");
}

#[test]
fn warnings_alone_are_not_errors() {
    let mut d = Diagnostics::new();
    assert!(!d.has_errors());
    d.warning(None, "only a warning".to_string());
    assert!(!d.has_errors());
    assert_eq!(d.errors_count(), 0);
}

#[test]
fn name_map_binds_and_rebinds() {
    let mut m: NameMap<i32> = NameMap::new();
    m.insert("a".to_string(), 1);
    m.insert("b".to_string(), 2);
    assert_eq!(m.len(), 2);
    assert_eq!(m.get("a"), Some(&1));
    assert!(m.get("c").is_none());
    assert!(m.contains_key("b"));
    m.set("a", 10);
    assert_eq!(m.get("a"), Some(&10));
    assert_eq!(m.len(), 2);
    let (name, value) = m.entry(1);
    assert_eq!((name.as_str(), *value), ("b", 2));
    m.set("zzz", 5);
    assert_eq!(m.len(), 2);
}
