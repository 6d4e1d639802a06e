//! The resource-table application's state and its update rule: which
//! message changes what, plus the pagination figures and the grid template
//! its view shows.

use vstd::prelude::*;
use vstd::string::StringExecFns;

use crate::model::{Column, Health, SortRule, TablePreferences, Uri};
use crate::model;
use crate::table;
use crate::table::PAGE_SIZE;
use crate::text;
use crate::text::{append_decimal, join_strings};

verus! {

/// Everything the user can do to the table.
#[derive(Clone)]
pub enum Msg {
    /// Sort by a column. `multi` keeps existing sort rules (a Shift-click).
    Sort(Column, bool),
    /// A per-column filter field changed (carries the current value).
    Filter(Column, String),
    /// The global search field changed (carries the current value).
    GlobalQuery(String),
    PrevPage,
    NextPage,
    FirstPage,
    LastPage,
    ToggleColumn(Column),
    ToggleColumnChooser,
}

/// The table application's state.
pub struct Model {
    /// The dataset.
    pub resources: Vec<Uri>,
    pub preferences: TablePreferences,
    /// One filter per column, indexed by `Column::index`.
    pub filters: Vec<String>,
    pub show_column_chooser: bool,
    pub global_query: String,
    pub page: usize,
}

/// `new` is `old` after handling `msg`. Sorting, filtering and searching go
/// back to the first page; paging moves (never below the first page; past
/// the end it is clamped when shown); toggles flip what they name.
pub open spec fn model_after(old: Model, new: Model, msg: Msg) -> bool {
    &&& new.resources@ == old.resources@
    &&& new.preferences.column_order@ == old.preferences.column_order@
    &&& match msg {
        Msg::Sort(column, multi) => {
            &&& new.preferences.sort_rules@ == table::clicked_rules(
                old.preferences.sort_rules@,
                column,
                multi,
            )
            &&& new.preferences.visible_columns@ == old.preferences.visible_columns@
            &&& new.filters@ == old.filters@
            &&& new.global_query@ == old.global_query@
            &&& new.show_column_chooser == old.show_column_chooser
            &&& new.page == 0
        },
        Msg::Filter(column, value) => {
            &&& new.preferences.sort_rules@ == old.preferences.sort_rules@
            &&& new.preferences.visible_columns@ == old.preferences.visible_columns@
            &&& new.filters@ == old.filters@.update(model::column_index(column), value)
            &&& new.global_query@ == old.global_query@
            &&& new.show_column_chooser == old.show_column_chooser
            &&& new.page == 0
        },
        Msg::GlobalQuery(value) => {
            &&& new.preferences.sort_rules@ == old.preferences.sort_rules@
            &&& new.preferences.visible_columns@ == old.preferences.visible_columns@
            &&& new.filters@ == old.filters@
            &&& new.global_query@ == value@
            &&& new.show_column_chooser == old.show_column_chooser
            &&& new.page == 0
        },
        Msg::ToggleColumn(column) => {
            &&& new.preferences.sort_rules@ == old.preferences.sort_rules@
            &&& new.preferences.visible_columns@ == model::toggled(
                old.preferences.visible_columns@,
                column,
            )
            &&& new.filters@ == old.filters@
            &&& new.global_query@ == old.global_query@
            &&& new.show_column_chooser == old.show_column_chooser
            &&& new.page == old.page
        },
        _ => {
            &&& new.preferences.sort_rules@ == old.preferences.sort_rules@
            &&& new.preferences.visible_columns@ == old.preferences.visible_columns@
            &&& new.filters@ == old.filters@
            &&& new.global_query@ == old.global_query@
            &&& new.show_column_chooser == (if msg is ToggleColumnChooser {
                !old.show_column_chooser
            } else {
                old.show_column_chooser
            })
            &&& new.page == match msg {
                Msg::PrevPage => if old.page == 0 {
                    0
                } else {
                    (old.page - 1) as usize
                },
                Msg::NextPage => (old.page + 1) as usize,
                Msg::FirstPage => 0,
                Msg::LastPage => usize::MAX,
                _ => old.page,
            }
        },
    }
}

impl Model {
    /// The state the table boots into over a dataset: default preferences,
    /// no filters, no query, first page, column chooser closed.
    pub fn new(resources: Vec<Uri>) -> (r: Model)
        ensures
            r.resources@ == resources@,
            r.preferences.sort_rules@ == Seq::<model::SortRule>::empty(),
            r.preferences.column_order@ == model::all_columns(),
            r.preferences.visible_columns@ == model::default_visible_columns(),
            table::empty_filters(r.filters@),
            !r.show_column_chooser,
            r.global_query@ == Seq::<char>::empty(),
            r.page == 0,
    {
        let mut filters: Vec<String> = Vec::new();
        let mut k: usize = 0;
        while k < Column::count()
            invariant
                k <= model::column_count(),
                filters@.len() == k,
                forall|q: int| 0 <= q < k ==> #[trigger] filters@[q]@ == Seq::<char>::empty(),
            decreases model::column_count() - k,
        {
            filters.push(String::new());
            k = k + 1;
        }
        Model {
            resources,
            preferences: TablePreferences::default(),
            filters,
            show_column_chooser: false,
            global_query: String::new(),
            page: 0,
        }
    }

    /// Handle one message.
    pub fn update(&mut self, msg: Msg)
        requires
            match msg {
                Msg::Filter(column, _) => model::column_index(column) < old(self).filters@.len(),
                _ => true,
            },
            msg is NextPage ==> old(self).page < usize::MAX,
        ensures
            model_after(*old(self), *final(self), msg),
            final(self).filters@.len() == old(self).filters@.len(),
    {
        match msg {
            Msg::Sort(column, multi) => {
                table::update_sort_rules(&mut self.preferences.sort_rules, column, multi);
                self.page = 0;
            },
            Msg::Filter(column, value) => {
                let index = column.index();
                self.filters.set(index, value);
                self.page = 0;
            },
            Msg::GlobalQuery(value) => {
                self.global_query = value;
                self.page = 0;
            },
            Msg::PrevPage => self.page = if self.page == 0 {
                0
            } else {
                self.page - 1
            },
            Msg::NextPage => self.page = self.page + 1,
            Msg::FirstPage => self.page = 0,
            Msg::LastPage => self.page = usize::MAX,
            Msg::ToggleColumn(column) => self.preferences.toggle_column(column),
            Msg::ToggleColumnChooser => self.show_column_chooser = !self.show_column_chooser,
        }
    }
}

/// The figures the pagination bar shows.
pub struct PageSummary {
    /// The page shown (zero-based, clamped to the last page).
    pub current: usize,
    /// Number of pages (at least one).
    pub page_count: usize,
    /// Rows on the page shown.
    pub shown: usize,
    /// One-based number of the first row shown, 0 when there are no rows.
    pub first_row: usize,
    /// One-based number of the last row shown, 0 when there are no rows.
    pub last_row: usize,
    /// The first page is shown: "First" and "Prev" are disabled.
    pub at_start: bool,
    /// The last page is shown: "Next" and "Last" are disabled.
    pub at_end: bool,
    /// "Page <one-based page> of <page count>".
    pub page_text: String,
    /// "<first row>–<last row> of <total> rows".
    pub rows_text: String,
    /// "Showing <rows shown> of <total> rows".
    pub showing_text: String,
}

/// Pagination figures for `total` rows when `page` is requested.
pub fn page_summary(total: usize, page: usize) -> (r: PageSummary)
    ensures
        r.current == table::clamped_page(total as int, page as int),
        r.page_count == table::page_count_of(total as int),
        r.shown == table::page_end(total as int, page as int) - table::page_start(
            total as int,
            page as int,
        ),
        r.first_row == (if total == 0 {
            0
        } else {
            table::page_start(total as int, page as int) + 1
        }),
        r.last_row == (if total == 0 {
            0
        } else {
            table::page_end(total as int, page as int)
        }),
        r.at_start == (r.current == 0),
        r.at_end == (r.current + 1 >= r.page_count),
        r.page_text@ == "Page "@ + text::decimal((r.current + 1) as nat) + " of "@ + text::decimal(
            r.page_count as nat,
        ),
        r.rows_text@ == text::decimal(r.first_row as nat) + "–"@ + text::decimal(r.last_row as nat)
            + " of "@ + text::decimal(total as nat) + " rows"@,
        r.showing_text@ == "Showing "@ + text::decimal(r.shown as nat) + " of "@ + text::decimal(
            total as nat,
        ) + " rows"@,
{
    proof {
        table::lemma_page_bounds(total as int, page as int);
    }
    let page_count = if total == 0 {
        1
    } else {
        total / PAGE_SIZE + if total % PAGE_SIZE == 0 {
            0
        } else {
            1
        }
    };
    assert(page_count == table::page_count_of(total as int)) by (nonlinear_arith)
        requires
            page_count == (if total == 0 {
                1
            } else {
                total / 30 + if total % 30 == 0 {
                    0int
                } else {
                    1
                }
            }),
            table::page_count_of(total as int) == (if total == 0 {
                1
            } else {
                (total + 29) / 30
            }),
    ;
    let current = if page < page_count - 1 {
        page
    } else {
        page_count - 1
    };
    let start = current * PAGE_SIZE;
    let end = if total - start < PAGE_SIZE {
        total
    } else {
        start + PAGE_SIZE
    };
    let (first_row, last_row) = if total == 0 {
        (0, 0)
    } else {
        (start + 1, end)
    };
    let shown = end - start;
    let mut page_text = String::from_str("Page ");
    append_decimal(&mut page_text, current + 1);
    page_text.append(" of ");
    append_decimal(&mut page_text, page_count);
    let mut rows_text = String::new();
    append_decimal(&mut rows_text, first_row);
    rows_text.append("–");
    append_decimal(&mut rows_text, last_row);
    rows_text.append(" of ");
    append_decimal(&mut rows_text, total);
    rows_text.append(" rows");
    let mut showing_text = String::from_str("Showing ");
    append_decimal(&mut showing_text, shown);
    showing_text.append(" of ");
    append_decimal(&mut showing_text, total);
    showing_text.append(" rows");
    proof {
        assert(Seq::<char>::empty() + text::decimal(first_row as nat) =~= text::decimal(
            first_row as nat,
        ));
    }
    PageSummary {
        current,
        page_count,
        shown,
        first_row,
        last_row,
        at_start: current == 0,
        at_end: current + 1 >= page_count,
        page_text,
        rows_text,
        showing_text,
    }
}

/// The width a column gets in the grid: compact columns are fixed-width,
/// everything else shares the remaining space.
pub open spec fn column_track(c: Column) -> Seq<char> {
    if model::column_is_compact(c) {
        "110px"@
    } else {
        "minmax(0, 1fr)"@
    }
}

/// CSS `grid-template-columns` for the given columns, one track each.
pub open spec fn grid_template_text(columns: Seq<Column>) -> Seq<char> {
    "grid-template-columns: "@ + text::join(columns.map_values(|c: Column| column_track(c)), " "@)
}

/// CSS `grid-template-columns` matching the columns shown, shared by the
/// header and the rows so the cells line up.
pub fn grid_template(columns: &[Column]) -> (r: String)
    ensures
        r@ == grid_template_text(columns@),
{
    let mut parts: Vec<String> = Vec::new();
    let mut k: usize = 0;
    while k < columns.len()
        invariant
            k <= columns@.len(),
            text::texts(parts@) =~= columns@.take(k as int).map_values(
                |c: Column| column_track(c),
            ),
        decreases columns@.len() - k,
    {
        let part = if columns[k].is_compact() {
            String::from_str("110px")
        } else {
            String::from_str("minmax(0, 1fr)")
        };
        let ghost before = parts@;
        parts.push(part);
        assert(parts@ == before.push(part));
        assert(text::texts(parts@) =~= text::texts(before).push(part@));
        assert(columns@.take(k + 1).map_values(|c: Column| column_track(c)) =~= columns@.take(
            k as int,
        ).map_values(|c: Column| column_track(c)).push(column_track(columns@[k as int])));
        k = k + 1;
    }
    assert(columns@.take(columns@.len() as int) =~= columns@);
    let mut r = String::from_str("grid-template-columns: ");
    let joined = join_strings(&parts, " ");
    r.append(joined.as_str());
    r
}

// ---------------------------------------------------------------------------
// Presentation choices of the view
// ---------------------------------------------------------------------------

/// Label of a column's sort button: the sort indicator, or a dash when the
/// column is unsorted.
pub open spec fn sort_label_text(rules: Seq<SortRule>, column: Column) -> Seq<char> {
    if table::indicator(rules, column).len() == 0 {
        "-"@
    } else {
        table::indicator(rules, column)
    }
}

/// Label of a column's sort button.
pub fn sort_label(column: Column, rules: &[SortRule]) -> (r: &'static str)
    ensures
        r@ == sort_label_text(rules@, column),
{
    let indicator = table::sort_indicator(column, rules);
    if indicator.is_empty() {
        "-"
    } else {
        indicator
    }
}

/// CSS class of a header cell: compact columns are centered.
pub fn header_class(column: Column) -> (r: &'static str)
    ensures
        r@ == (if model::column_is_compact(column) {
            "th compact"@
        } else {
            "th"@
        }),
{
    if column.is_compact() {
        "th compact"
    } else {
        "th"
    }
}

/// CSS class of a body cell: compact columns are centered.
pub fn cell_class(column: Column) -> (r: &'static str)
    ensures
        r@ == (if model::column_is_compact(column) {
            "td compact"@
        } else {
            "td"@
        }),
{
    if column.is_compact() {
        "td compact"
    } else {
        "td"
    }
}

/// CSS class of a health cell's status text.
pub fn health_class(health: Health) -> (r: &'static str)
    ensures
        r@ == match health {
            Health::Available => "hp ok"@,
            Health::Unavailable => "hp bad"@,
            Health::Unknown => "hp unknown"@,
        },
{
    match health {
        Health::Available => "hp ok",
        Health::Unavailable => "hp bad",
        Health::Unknown => "hp unknown",
    }
}

/// CSS class of the column chooser: `open` grows it to its content height.
pub fn chooser_class(open: bool) -> (r: &'static str)
    ensures
        r@ == (if open {
            "chooser open"@
        } else {
            "chooser"@
        }),
{
    if open {
        "chooser open"
    } else {
        "chooser"
    }
}

/// CSS class of the "Columns" button: `on` while the chooser is open.
pub fn columns_button_class(open: bool) -> (r: &'static str)
    ensures
        r@ == (if open {
            "cols on"@
        } else {
            "cols"@
        }),
{
    if open {
        "cols on"
    } else {
        "cols"
    }
}

} // verus!
