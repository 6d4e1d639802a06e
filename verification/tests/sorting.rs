use elmore::model::{Column, Health, SortDirection, SortRule, TablePreferences, Uri};
use elmore::table::{filter_and_sort, page_rows, sort_indicator, update_sort_rules};

fn res(title: &str, host: &str, tags: &[&str]) -> Uri {
    Uri {
        uri_uuid: format!("uuid-{title}"),
        url: format!("https://{host}/"),
        scheme: "https".to_string(),
        host: Some(host.to_string()),
        path: None,
        live_status: Health::Unknown,
        title: Some(title.to_string()),
        auto_descr: None,
        man_descr: None,
        crea_user: None,
        crea_time: None,
        modi_user: None,
        modi_time: None,
        tags: tags.iter().map(|t| t.to_string()).collect(),
    }
}

fn titles(rows: &[&Uri]) -> Vec<String> {
    rows.iter().map(|u| u.title.clone().unwrap()).collect()
}

fn data() -> Vec<Uri> {
    vec![
        res("b", "two.org", &["x"]),
        res("a", "one.org", &["y"]),
        res("c", "one.org", &[]),
        res("a", "three.org", &["x", "y"]),
    ]
}

fn no_filters() -> Vec<String> {
    vec![String::new(); Column::count()]
}

#[test]
fn unsorted_keeps_dataset_order() {
    let uris = data();
    let rows = filter_and_sort(&uris, &TablePreferences::default(), &no_filters(), "");
    assert_eq!(titles(&rows), vec!["b", "a", "c", "a"]);
}

#[test]
fn ascending_sort_is_stable() {
    let uris = data();
    let mut prefs = TablePreferences::default();
    update_sort_rules(&mut prefs.sort_rules, Column::Title, false);
    let rows = filter_and_sort(&uris, &prefs, &no_filters(), "");
    assert_eq!(titles(&rows), vec!["a", "a", "b", "c"]);
    // The two "a" rows keep their dataset order.
    assert_eq!(rows[0].host.as_deref(), Some("one.org"));
    assert_eq!(rows[1].host.as_deref(), Some("three.org"));
}

#[test]
fn descending_sort_keeps_ties_in_dataset_order() {
    let uris = data();
    let prefs = TablePreferences {
        sort_rules: vec![SortRule { column: Column::Title, direction: SortDirection::Descending }],
        ..TablePreferences::default()
    };
    let rows = filter_and_sort(&uris, &prefs, &no_filters(), "");
    assert_eq!(titles(&rows), vec!["c", "b", "a", "a"]);
    assert_eq!(rows[2].host.as_deref(), Some("one.org"));
    assert_eq!(rows[3].host.as_deref(), Some("three.org"));
}

#[test]
fn secondary_rule_breaks_ties() {
    let uris = data();
    let prefs = TablePreferences {
        sort_rules: vec![
            SortRule { column: Column::Host, direction: SortDirection::Ascending },
            SortRule { column: Column::Title, direction: SortDirection::Descending },
        ],
        ..TablePreferences::default()
    };
    let rows = filter_and_sort(&uris, &prefs, &no_filters(), "");
    let hosts: Vec<_> = rows.iter().map(|u| u.host.clone().unwrap()).collect();
    assert_eq!(hosts, vec!["one.org", "one.org", "three.org", "two.org"]);
    assert_eq!(titles(&rows), vec!["c", "a", "a", "b"]);
}

#[test]
fn query_words_must_all_match_and_are_case_insensitive() {
    let uris = data();
    let prefs = TablePreferences::default();
    let rows = filter_and_sort(&uris, &prefs, &no_filters(), "  ONE.org  ");
    assert_eq!(titles(&rows), vec!["a", "c"]);
    let rows = filter_and_sort(&uris, &prefs, &no_filters(), "one.org x");
    assert!(rows.is_empty());
    let rows = filter_and_sort(&uris, &prefs, &no_filters(), "x, y");
    assert_eq!(titles(&rows), vec!["a"]);
}

#[test]
fn filters_apply_per_column_and_ignore_wrong_lengths() {
    let uris = data();
    let prefs = TablePreferences::default();
    let mut filters = no_filters();
    filters[Column::Tags.index()] = "X".to_string();
    let rows = filter_and_sort(&uris, &prefs, &filters, "");
    assert_eq!(titles(&rows), vec!["b", "a"]);
    // A filter list of the wrong length filters nothing.
    let rows = filter_and_sort(&uris, &prefs, &["zzz".to_string()], "");
    assert_eq!(rows.len(), 4);
}

#[test]
fn indicators_follow_the_first_rule() {
    let rules = vec![
        SortRule { column: Column::Title, direction: SortDirection::Ascending },
        SortRule { column: Column::Host, direction: SortDirection::Descending },
    ];
    assert_eq!(sort_indicator(Column::Title, &rules), "↑");
    assert_eq!(sort_indicator(Column::Host, &rules), "↓");
    assert_eq!(sort_indicator(Column::Url, &rules), "");
}

#[test]
fn multi_sort_cycles_one_column_and_keeps_the_others() {
    let mut rules = vec![
        SortRule { column: Column::Title, direction: SortDirection::Ascending },
        SortRule { column: Column::Host, direction: SortDirection::Ascending },
    ];
    update_sort_rules(&mut rules, Column::Title, true);
    assert_eq!(
        rules,
        vec![
            SortRule { column: Column::Host, direction: SortDirection::Ascending },
            SortRule { column: Column::Title, direction: SortDirection::Descending },
        ]
    );
    update_sort_rules(&mut rules, Column::Title, true);
    assert_eq!(rules, vec![SortRule { column: Column::Host, direction: SortDirection::Ascending }]);
    update_sort_rules(&mut rules, Column::Url, false);
    assert_eq!(rules, vec![SortRule { column: Column::Url, direction: SortDirection::Ascending }]);
}

#[test]
fn paging_of_small_and_empty_tables() {
    let uris = data();
    let refs: Vec<&Uri> = uris.iter().collect();
    let (page, count, rows) = page_rows(&refs, 0);
    assert_eq!((page, count, rows.len()), (0, 1, 4));
    let none: Vec<&Uri> = Vec::new();
    let (page, count, rows) = page_rows(&none, 7);
    assert_eq!((page, count, rows.len()), (0, 1, 0));
}

#[test]
fn paging_splits_into_pages_of_thirty() {
    let uris: Vec<Uri> = (0..61).map(|i| res(&format!("t{i}"), "h.org", &[])).collect();
    let refs: Vec<&Uri> = uris.iter().collect();
    let (page, count, rows) = page_rows(&refs, 1);
    assert_eq!((page, count, rows.len()), (1, 3, 30));
    assert_eq!(rows[0].title.as_deref(), Some("t30"));
    let (page, _, rows) = page_rows(&refs, 2);
    assert_eq!((page, rows.len()), (2, 1));
    assert_eq!(rows[0].title.as_deref(), Some("t60"));
}

#[test]
fn empty_filters_and_a_blank_query_list_every_row() {
    let uris = data();
    let rows = filter_and_sort(&uris, &TablePreferences::default(), &no_filters(), " \t ");
    assert_eq!(rows.len(), uris.len());
}
