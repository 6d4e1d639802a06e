use elmore::model::{Column, Health, SortDirection, SortRule, TablePreferences, Uri};
use elmore::table::{filter_and_sort, page_rows, sort_indicator, update_sort_rules, PAGE_SIZE};

fn uri(title: &str, host: &str) -> Uri {
    Uri {
        uri_uuid: format!("uuid-{title}"),
        url: format!("https://{host}/"),
        scheme: "https".to_string(),
        host: Some(host.to_string()),
        path: Some("/".to_string()),
        live_status: Health::Available,
        title: Some(title.to_string()),
        auto_descr: None,
        man_descr: None,
        crea_user: None,
        crea_time: None,
        modi_user: None,
        modi_time: None,
        tags: vec![],
    }
}

#[test]
fn sort_rules_cycle_asc_desc_off() {
    let mut rules = Vec::new();
    update_sort_rules(&mut rules, Column::Title, false);
    assert_eq!(rules.len(), 1);
    assert_eq!(rules[0].direction, SortDirection::Ascending);

    update_sort_rules(&mut rules, Column::Title, false);
    assert_eq!(rules.len(), 1);
    assert_eq!(rules[0].direction, SortDirection::Descending);

    update_sort_rules(&mut rules, Column::Title, false);
    assert!(rules.is_empty(), "third click clears the sort");
}

#[test]
fn multi_sort_keeps_existing_rules() {
    let mut rules = Vec::new();
    update_sort_rules(&mut rules, Column::Title, false);
    update_sort_rules(&mut rules, Column::Host, true);
    assert_eq!(rules.len(), 2, "secondary sort is added");
    assert_eq!(rules[0].column, Column::Title);
    assert_eq!(rules[1].column, Column::Host);
}

#[test]
fn filter_matches_all_columns_and_resets_to_nothing() {
    let preferences = TablePreferences::default();
    let uris = vec![uri("Rust Blog", "blog.rust-lang.org")];
    let no_filters = vec![String::new(); Column::count()];

    let rows = filter_and_sort(&uris, &preferences, &no_filters, "");
    assert_eq!(rows.len(), 1);

    let rows = filter_and_sort(&uris, &preferences, &no_filters, "rust blog");
    assert_eq!(rows.len(), 1, "global query hits across columns");

    let rows = filter_and_sort(&uris, &preferences, &no_filters, "no such term");
    assert!(rows.is_empty());

    let mut filters = no_filters.clone();
    filters[Column::Host.index()] = "unrelated".to_string();
    let rows = filter_and_sort(&uris, &preferences, &filters, "");
    assert!(rows.is_empty(), "per-column filter applies");
}

#[test]
fn paging_clamps_past_the_end() {
    let uris: Vec<_> = (0..(PAGE_SIZE + 5)).map(|i| uri(&format!("t{i}"), "x.rs")).collect();
    let refs: Vec<&Uri> = uris.iter().collect();
    let (page, page_count, rows) = page_rows(&refs, usize::MAX);
    assert_eq!(page_count, 2);
    assert_eq!(page, 1, "page is clamped to the last one");
    assert_eq!(rows.len(), 5);
}
