use elmore::model::{Column, Health, TablePreferences, Uri};

fn sample() -> Uri {
    Uri {
        uri_uuid: "u-1".to_string(),
        url: "https://example.org/x".to_string(),
        scheme: "https".to_string(),
        host: Some("example.org".to_string()),
        path: None,
        live_status: Health::Unavailable,
        title: Some("Example".to_string()),
        auto_descr: Some("auto".to_string()),
        man_descr: None,
        crea_user: Some("ann".to_string()),
        crea_time: None,
        modi_user: None,
        modi_time: Some("2024".to_string()),
        tags: vec!["a".to_string(), "b".to_string()],
    }
}

#[test]
fn columns_have_indices_in_declaration_order() {
    assert_eq!(Column::count(), 14);
    for (i, c) in Column::ALL.iter().enumerate() {
        assert_eq!(c.index(), i);
    }
    assert_eq!(Column::ModifiedAt.index(), 13);
}

#[test]
fn column_titles_and_compactness() {
    assert_eq!(Column::Host.title(), "Domain");
    assert_eq!(Column::Uuid.title(), "Identifier");
    assert_eq!(Column::ManualDescription.title(), "Manual description");
    assert!(Column::Health.is_compact());
    assert!(Column::Tags.is_compact());
    assert!(Column::Scheme.is_compact());
    assert!(!Column::Title.is_compact());
}

#[test]
fn column_values_read_the_resource() {
    let u = sample();
    assert_eq!(Column::Health.value(&u), "Unavailable");
    assert_eq!(Column::Host.value(&u), "example.org");
    assert_eq!(Column::Path.value(&u), "");
    assert_eq!(Column::Tags.value(&u), "a, b");
    assert_eq!(Column::Url.value(&u), "https://example.org/x");
    assert_eq!(Column::CreatedBy.value(&u), "ann");
    assert_eq!(Column::ModifiedAt.value(&u), "2024");
    assert_eq!(Column::Uuid.value(&u), "u-1");
}

#[test]
fn health_labels() {
    assert_eq!(Health::Available.label(), "Available");
    assert_eq!(Health::Unavailable.label(), "Unavailable");
    assert_eq!(Health::Unknown.label(), "Unknown");
}

#[test]
fn default_preferences() {
    let p = TablePreferences::default();
    assert!(p.sort_rules.is_empty());
    assert_eq!(p.column_order, Column::ALL.to_vec());
    assert_eq!(p.visible_columns, vec![Column::Host, Column::Title, Column::Url, Column::Description]);
    assert_eq!(p.visible_in_order(), vec![Column::Host, Column::Title, Column::Url, Column::Description]);
}

#[test]
fn toggling_flips_visibility() {
    let mut p = TablePreferences::default();
    assert!(!p.is_column_visible(Column::Tags));
    p.toggle_column(Column::Tags);
    assert!(p.is_column_visible(Column::Tags));
    assert_eq!(p.visible_columns.last(), Some(&Column::Tags));
    p.toggle_column(Column::Tags);
    assert!(!p.is_column_visible(Column::Tags));
    assert_eq!(p.visible_columns, TablePreferences::default().visible_columns);

    p.toggle_column(Column::Title);
    assert_eq!(p.visible_columns, vec![Column::Host, Column::Url, Column::Description]);
}

#[test]
fn visible_columns_follow_column_order() {
    let mut p = TablePreferences::default();
    p.toggle_column(Column::Health);
    // Health is appended to the visible list but shown in column order.
    assert_eq!(
        p.visible_in_order(),
        vec![Column::Health, Column::Host, Column::Title, Column::Url, Column::Description]
    );
    p.column_order = vec![Column::Url, Column::Host];
    assert_eq!(p.visible_in_order(), vec![Column::Url, Column::Host]);
}
