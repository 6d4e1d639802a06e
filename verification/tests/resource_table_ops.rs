use elmore::model::{Column, Health, SortDirection, Uri};
use elmore::resource_table::{grid_template, page_summary, Model, Msg};

fn one() -> Uri {
    Uri {
        uri_uuid: "1".to_string(),
        url: "https://a.org/".to_string(),
        scheme: "https".to_string(),
        host: Some("a.org".to_string()),
        path: None,
        live_status: Health::Available,
        title: Some("A".to_string()),
        auto_descr: None,
        man_descr: None,
        crea_user: None,
        crea_time: None,
        modi_user: None,
        modi_time: None,
        tags: vec![],
    }
}

#[test]
fn the_model_boots_empty_handed() {
    let m = Model::new(vec![one()]);
    assert_eq!(m.resources.len(), 1);
    assert_eq!(m.filters.len(), Column::count());
    assert!(m.filters.iter().all(|f| f.is_empty()));
    assert_eq!(m.page, 0);
    assert!(!m.show_column_chooser);
    assert!(m.global_query.is_empty());
}

#[test]
fn sorting_filtering_and_searching_reset_the_page() {
    let mut m = Model::new(vec![one()]);
    m.update(Msg::NextPage);
    m.update(Msg::NextPage);
    assert_eq!(m.page, 2);
    m.update(Msg::Sort(Column::Title, false));
    assert_eq!(m.page, 0);
    assert_eq!(m.preferences.sort_rules[0].direction, SortDirection::Ascending);
    m.update(Msg::NextPage);
    m.update(Msg::Filter(Column::Host, "a.".to_string()));
    assert_eq!(m.page, 0);
    assert_eq!(m.filters[Column::Host.index()], "a.");
    m.update(Msg::LastPage);
    assert_eq!(m.page, usize::MAX);
    m.update(Msg::GlobalQuery("q".to_string()));
    assert_eq!(m.page, 0);
    assert_eq!(m.global_query, "q");
}

#[test]
fn paging_messages() {
    let mut m = Model::new(Vec::new());
    m.update(Msg::PrevPage);
    assert_eq!(m.page, 0);
    m.update(Msg::NextPage);
    m.update(Msg::NextPage);
    m.update(Msg::PrevPage);
    assert_eq!(m.page, 1);
    m.update(Msg::FirstPage);
    assert_eq!(m.page, 0);
}

#[test]
fn toggles() {
    let mut m = Model::new(Vec::new());
    m.update(Msg::ToggleColumnChooser);
    assert!(m.show_column_chooser);
    m.update(Msg::ToggleColumnChooser);
    assert!(!m.show_column_chooser);
    m.update(Msg::ToggleColumn(Column::Tags));
    assert!(m.preferences.is_column_visible(Column::Tags));
}

#[test]
fn page_summary_figures() {
    let s = page_summary(35, usize::MAX);
    assert_eq!((s.current, s.page_count, s.shown, s.first_row, s.last_row), (1, 2, 5, 31, 35));
    assert!(!s.at_start);
    assert!(s.at_end);
    let s = page_summary(35, 0);
    assert_eq!((s.current, s.shown, s.first_row, s.last_row), (0, 30, 1, 30));
    assert!(s.at_start && !s.at_end);
    let s = page_summary(0, 3);
    assert_eq!((s.current, s.page_count, s.shown, s.first_row, s.last_row), (0, 1, 0, 0, 0));
    assert!(s.at_start && s.at_end);
    assert_eq!(s.page_text, "Page 1 of 1");
    assert_eq!(s.rows_text, "0–0 of 0 rows");
    assert_eq!(s.showing_text, "Showing 0 of 0 rows");
}

#[test]
fn grid_template_has_one_track_per_column() {
    assert_eq!(
        grid_template(&[Column::Health, Column::Title]),
        "grid-template-columns: 110px minmax(0, 1fr)"
    );
    assert_eq!(grid_template(&[]), "grid-template-columns: ");
}

use elmore::model::SortRule;
use elmore::resource_table::{
    cell_class, chooser_class, columns_button_class, header_class, health_class, sort_label,
};

#[test]
fn presentation_choices() {
    let rules = vec![SortRule { column: Column::Title, direction: SortDirection::Descending }];
    assert_eq!(sort_label(Column::Title, &rules), "↓");
    assert_eq!(sort_label(Column::Host, &rules), "-");
    assert_eq!(header_class(Column::Tags), "th compact");
    assert_eq!(header_class(Column::Title), "th");
    assert_eq!(cell_class(Column::Health), "td compact");
    assert_eq!(cell_class(Column::Url), "td");
    assert_eq!(health_class(Health::Available), "hp ok");
    assert_eq!(health_class(Health::Unavailable), "hp bad");
    assert_eq!(health_class(Health::Unknown), "hp unknown");
    assert_eq!(chooser_class(true), "chooser open");
    assert_eq!(chooser_class(false), "chooser");
    assert_eq!(columns_button_class(true), "cols on");
    assert_eq!(columns_button_class(false), "cols");
}

#[test]
fn pagination_captions() {
    let s = page_summary(1234, 40);
    assert_eq!(s.page_text, "Page 41 of 42");
    assert_eq!(s.rows_text, "1201–1230 of 1234 rows");
    assert_eq!(s.showing_text, "Showing 30 of 1234 rows");
    let s = page_summary(35, 1);
    assert_eq!(s.page_text, "Page 2 of 2");
    assert_eq!(s.rows_text, "31–35 of 35 rows");
    assert_eq!(s.showing_text, "Showing 5 of 35 rows");
}

#[test]
fn paging_and_toggles_work_on_any_filter_count() {
    let mut m = Model::new(Vec::new());
    m.filters.clear();
    m.update(Msg::NextPage);
    m.update(Msg::ToggleColumnChooser);
    assert_eq!(m.page, 1);
    assert!(m.show_column_chooser);
    assert!(m.filters.is_empty());
}
