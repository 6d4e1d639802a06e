//! Data types of the resource table: columns, sort rules, table preferences,
//! resource health and the resource record itself.

use vstd::prelude::*;
use vstd::string::StringExecFns;

use crate::text;
use crate::text::join_strings;

verus! {

/// A column of the resource table.
#[derive(Clone, Copy, Debug, PartialEq, Eq, Structural)]
pub enum Column {
    Health,
    Host,
    Title,
    Url,
    Description,
    ManualDescription,
    Tags,
    Scheme,
    Path,
    Uuid,
    CreatedBy,
    CreatedAt,
    ModifiedBy,
    ModifiedAt,
}

/// Position of a column in the table's canonical column list.
pub open spec fn column_index(c: Column) -> int {
    match c {
        Column::Health => 0,
        Column::Host => 1,
        Column::Title => 2,
        Column::Url => 3,
        Column::Description => 4,
        Column::ManualDescription => 5,
        Column::Tags => 6,
        Column::Scheme => 7,
        Column::Path => 8,
        Column::Uuid => 9,
        Column::CreatedBy => 10,
        Column::CreatedAt => 11,
        Column::ModifiedBy => 12,
        Column::ModifiedAt => 13,
    }
}

/// Number of columns.
pub open spec fn column_count() -> int {
    14
}

/// The canonical list of all columns, in declaration order.
pub open spec fn all_columns() -> Seq<Column> {
    seq![
        Column::Health,
        Column::Host,
        Column::Title,
        Column::Url,
        Column::Description,
        Column::ManualDescription,
        Column::Tags,
        Column::Scheme,
        Column::Path,
        Column::Uuid,
        Column::CreatedBy,
        Column::CreatedAt,
        Column::ModifiedBy,
        Column::ModifiedAt,
    ]
}

/// The columns shown before the user changes anything.
pub open spec fn default_visible_columns() -> Seq<Column> {
    seq![Column::Host, Column::Title, Column::Url, Column::Description]
}

/// Every column sits in the canonical list at its index, and nowhere else.
pub proof fn lemma_column_positions()
    ensures
        all_columns().len() == column_count(),
        forall|c: Column| #[trigger] all_columns()[column_index(c)] == c,
        forall|c: Column| 0 <= #[trigger] column_index(c) < column_count(),
        forall|k: int|
            0 <= k < column_count() ==> #[trigger] column_index(all_columns()[k]) == k,
        all_columns().no_duplicates(),
{
}

/// Display title of a column.
pub open spec fn column_title(c: Column) -> Seq<char> {
    match c {
        Column::Health => "Health"@,
        Column::Host => "Domain"@,
        Column::Title => "Title"@,
        Column::Url => "URL"@,
        Column::Description => "Description"@,
        Column::ManualDescription => "Manual description"@,
        Column::Tags => "Tags"@,
        Column::Scheme => "Scheme"@,
        Column::Path => "Path"@,
        Column::Uuid => "Identifier"@,
        Column::CreatedBy => "Created by"@,
        Column::CreatedAt => "Created at"@,
        Column::ModifiedBy => "Modified by"@,
        Column::ModifiedAt => "Modified at"@,
    }
}

/// Columns whose content is short and rendered centered.
pub open spec fn column_is_compact(c: Column) -> bool {
    c == Column::Health || c == Column::Tags || c == Column::Scheme
}

/// The text of an optional field, empty when it is absent.
pub open spec fn optional_text(o: Option<String>) -> Seq<char> {
    match o {
        Some(s) => s@,
        None => Seq::empty(),
    }
}

/// The text a column shows for a resource.
pub open spec fn column_value(c: Column, u: Uri) -> Seq<char> {
    match c {
        Column::Health => health_label(u.live_status),
        Column::Host => optional_text(u.host),
        Column::Title => optional_text(u.title),
        Column::Url => u.url@,
        Column::Description => optional_text(u.auto_descr),
        Column::ManualDescription => optional_text(u.man_descr),
        Column::Tags => text::join(text::texts(u.tags@), ", "@),
        Column::Scheme => u.scheme@,
        Column::Path => optional_text(u.path),
        Column::Uuid => u.uri_uuid@,
        Column::CreatedBy => optional_text(u.crea_user),
        Column::CreatedAt => optional_text(u.crea_time),
        Column::ModifiedBy => optional_text(u.modi_user),
        Column::ModifiedAt => optional_text(u.modi_time),
    }
}

/// Each column shows the field of the resource it is titled for: the text of
/// an optional field when it is set and nothing when it is absent, the
/// address parts as they are, the health label, and the tags joined by a
/// comma and a space.
pub proof fn lemma_column_shows_its_field(u: Uri)
    ensures
        column_value(Column::Health, u) == health_label(u.live_status),
        column_value(Column::Url, u) == u.url@,
        column_value(Column::Scheme, u) == u.scheme@,
        column_value(Column::Uuid, u) == u.uri_uuid@,
        column_value(Column::Tags, u) == text::join(text::texts(u.tags@), ", "@),
        u.host matches Some(s) ==> column_value(Column::Host, u) == s@,
        u.path matches Some(s) ==> column_value(Column::Path, u) == s@,
        u.title matches Some(s) ==> column_value(Column::Title, u) == s@,
        u.auto_descr matches Some(s) ==> column_value(Column::Description, u) == s@,
        u.man_descr matches Some(s) ==> column_value(Column::ManualDescription, u) == s@,
        u.crea_user matches Some(s) ==> column_value(Column::CreatedBy, u) == s@,
        u.crea_time matches Some(s) ==> column_value(Column::CreatedAt, u) == s@,
        u.modi_user matches Some(s) ==> column_value(Column::ModifiedBy, u) == s@,
        u.modi_time matches Some(s) ==> column_value(Column::ModifiedAt, u) == s@,
        u.host is None ==> column_value(Column::Host, u).len() == 0,
        u.path is None ==> column_value(Column::Path, u).len() == 0,
        u.title is None ==> column_value(Column::Title, u).len() == 0,
        u.auto_descr is None ==> column_value(Column::Description, u).len() == 0,
        u.man_descr is None ==> column_value(Column::ManualDescription, u).len() == 0,
        u.crea_user is None ==> column_value(Column::CreatedBy, u).len() == 0,
        u.crea_time is None ==> column_value(Column::CreatedAt, u).len() == 0,
        u.modi_user is None ==> column_value(Column::ModifiedBy, u).len() == 0,
        u.modi_time is None ==> column_value(Column::ModifiedAt, u).len() == 0,
{
}

/// A column reads nothing but its own field: two resources that agree on
/// that field show the same text in the column, whatever their other fields
/// hold (changing a resource's modification time never changes its
/// "Created at" cell, and so on for every column).
pub proof fn lemma_column_reads_only_its_field(u: Uri, v: Uri)
    ensures
        u.live_status == v.live_status ==> column_value(Column::Health, u) == column_value(
            Column::Health,
            v,
        ),
        u.host == v.host ==> column_value(Column::Host, u) == column_value(Column::Host, v),
        u.title == v.title ==> column_value(Column::Title, u) == column_value(Column::Title, v),
        u.url@ == v.url@ ==> column_value(Column::Url, u) == column_value(Column::Url, v),
        u.auto_descr == v.auto_descr ==> column_value(Column::Description, u) == column_value(
            Column::Description,
            v,
        ),
        u.man_descr == v.man_descr ==> column_value(Column::ManualDescription, u)
            == column_value(Column::ManualDescription, v),
        u.tags@ == v.tags@ ==> column_value(Column::Tags, u) == column_value(Column::Tags, v),
        u.scheme@ == v.scheme@ ==> column_value(Column::Scheme, u) == column_value(
            Column::Scheme,
            v,
        ),
        u.path == v.path ==> column_value(Column::Path, u) == column_value(Column::Path, v),
        u.uri_uuid@ == v.uri_uuid@ ==> column_value(Column::Uuid, u) == column_value(
            Column::Uuid,
            v,
        ),
        u.crea_user == v.crea_user ==> column_value(Column::CreatedBy, u) == column_value(
            Column::CreatedBy,
            v,
        ),
        u.crea_time == v.crea_time ==> column_value(Column::CreatedAt, u) == column_value(
            Column::CreatedAt,
            v,
        ),
        u.modi_user == v.modi_user ==> column_value(Column::ModifiedBy, u) == column_value(
            Column::ModifiedBy,
            v,
        ),
        u.modi_time == v.modi_time ==> column_value(Column::ModifiedAt, u) == column_value(
            Column::ModifiedAt,
            v,
        ),
{
}

fn text_or_empty(o: &Option<String>) -> (r: String)
    ensures
        r@ == optional_text(*o),
{
    match o {
        Some(s) => s.clone(),
        None => String::new(),
    }
}

impl Column {
    /// Every column, in declaration order.
    pub const ALL: [Column; 14] = [
        Column::Health,
        Column::Host,
        Column::Title,
        Column::Url,
        Column::Description,
        Column::ManualDescription,
        Column::Tags,
        Column::Scheme,
        Column::Path,
        Column::Uuid,
        Column::CreatedBy,
        Column::CreatedAt,
        Column::ModifiedBy,
        Column::ModifiedAt,
    ];

    /// The columns visible by default.
    pub const DEFAULT_VISIBLE: [Column; 4] = [
        Column::Host,
        Column::Title,
        Column::Url,
        Column::Description,
    ];

    /// The column at a position of the canonical list.
    pub(crate) fn at(index: usize) -> (c: Column)
        requires
            index < column_count(),
        ensures
            c == all_columns()[index as int],
    {
        Self::ALL[index]
    }

    /// Number of columns.
    pub fn count() -> (n: usize)
        ensures
            n == column_count(),
    {
        Self::ALL.len()
    }

    /// Display title of the column.
    pub fn title(self) -> (r: &'static str)
        ensures
            r@ == column_title(self),
    {
        match self {
            Column::Health => "Health",
            Column::Host => "Domain",
            Column::Title => "Title",
            Column::Url => "URL",
            Column::Description => "Description",
            Column::ManualDescription => "Manual description",
            Column::Tags => "Tags",
            Column::Scheme => "Scheme",
            Column::Path => "Path",
            Column::Uuid => "Identifier",
            Column::CreatedBy => "Created by",
            Column::CreatedAt => "Created at",
            Column::ModifiedBy => "Modified by",
            Column::ModifiedAt => "Modified at",
        }
    }

    /// Columns whose content is short and rendered centered.
    pub fn is_compact(self) -> (r: bool)
        ensures
            r == column_is_compact(self),
    {
        matches!(self, Column::Health | Column::Tags | Column::Scheme)
    }

    /// Index of this column in the canonical column list.
    pub fn index(self) -> (r: usize)
        ensures
            r == column_index(self),
            all_columns()[r as int] == self,
    {
        let mut i: usize = 0;
        while i < Self::ALL.len()
            invariant
                i <= column_count(),
                Self::ALL@ == all_columns(),
                forall|k: int| 0 <= k < i ==> all_columns()[k] != self,
            decreases column_count() - i,
        {
            if Self::ALL[i] == self {
                return i;
            }
            i = i + 1;
        }
        assert(all_columns()[column_index(self)] == self);
        i
    }

    /// The text this column shows for `uri`.
    pub fn value(self, uri: &Uri) -> (r: String)
        ensures
            r@ == column_value(self, *uri),
    {
        match self {
            Column::Health => String::from_str(uri.live_status.label()),
            Column::Host => text_or_empty(&uri.host),
            Column::Title => text_or_empty(&uri.title),
            Column::Url => uri.url.clone(),
            Column::Description => text_or_empty(&uri.auto_descr),
            Column::ManualDescription => text_or_empty(&uri.man_descr),
            Column::Tags => join_strings(&uri.tags, ", "),
            Column::Scheme => uri.scheme.clone(),
            Column::Path => text_or_empty(&uri.path),
            Column::Uuid => uri.uri_uuid.clone(),
            Column::CreatedBy => text_or_empty(&uri.crea_user),
            Column::CreatedAt => text_or_empty(&uri.crea_time),
            Column::ModifiedBy => text_or_empty(&uri.modi_user),
            Column::ModifiedAt => text_or_empty(&uri.modi_time),
        }
    }
}

/// Direction of a sort rule.
#[derive(Clone, Copy, Debug, PartialEq, Eq, Structural)]
pub enum SortDirection {
    Ascending,
    Descending,
}

/// Sort the table by one column in one direction.
#[derive(Clone, Copy, Debug, PartialEq, Eq, Structural)]
pub struct SortRule {
    pub column: Column,
    pub direction: SortDirection,
}

/// Health of a resource as last observed.
#[derive(Clone, Copy, Debug, PartialEq, Eq, Structural)]
pub enum Health {
    Available,
    Unavailable,
    Unknown,
}

/// Display label of a health state.
pub open spec fn health_label(h: Health) -> Seq<char> {
    match h {
        Health::Available => "Available"@,
        Health::Unavailable => "Unavailable"@,
        Health::Unknown => "Unknown"@,
    }
}

impl Health {
    /// Display label of the health state.
    pub fn label(self) -> (r: &'static str)
        ensures
            r@ == health_label(self),
    {
        match self {
            Health::Available => "Available",
            Health::Unavailable => "Unavailable",
            Health::Unknown => "Unknown",
        }
    }
}

/// One resource of the table.
#[derive(Debug, Clone, PartialEq)]
pub struct Uri {
    pub uri_uuid: String,
    pub url: String,
    pub scheme: String,
    pub host: Option<String>,
    pub path: Option<String>,
    pub live_status: Health,
    pub title: Option<String>,
    pub auto_descr: Option<String>,
    pub man_descr: Option<String>,
    pub crea_user: Option<String>,
    pub crea_time: Option<String>,
    pub modi_user: Option<String>,
    pub modi_time: Option<String>,
    pub tags: Vec<String>,
}

// ---------------------------------------------------------------------------
// Table preferences
// ---------------------------------------------------------------------------

/// `i` is the first position of `x` in `s`.
pub open spec fn is_first_index<T>(s: Seq<T>, x: T, i: int) -> bool {
    &&& 0 <= i < s.len()
    &&& s[i] == x
    &&& forall|j: int| 0 <= j < i ==> s[j] != x
}

/// The first position of `x` in `s` (meaningful when `s` contains `x`).
pub open spec fn first_index<T>(s: Seq<T>, x: T) -> int {
    choose|i: int| is_first_index(s, x, i)
}

/// The first position of an element is unique, and exists when the element
/// occurs.
pub proof fn lemma_first_index<T>(s: Seq<T>, x: T)
    ensures
        s.contains(x) ==> is_first_index(s, x, first_index(s, x)),
        forall|i: int| #[trigger] is_first_index(s, x, i) ==> i == first_index(s, x),
{
    if s.contains(x) {
        let k = choose|k: int| 0 <= k < s.len() && s[k] == x;
        lemma_first_exists(s, x, k);
        let f = first_index(s, x);
        assert forall|i: int| #[trigger] is_first_index(s, x, i) implies i == f by {
            if i < f {
                assert(s[i] != x);
            } else if i > f {
                assert(s[f] != x);
            }
        }
    } else {
        assert forall|i: int| #[trigger] is_first_index(s, x, i) implies i == first_index(s, x) by {
            assert(s.contains(x));
        }
    }
}

proof fn lemma_first_exists<T>(s: Seq<T>, x: T, k: int)
    requires
        0 <= k < s.len(),
        s[k] == x,
    ensures
        exists|i: int| is_first_index(s, x, i),
    decreases k,
{
    if exists|j: int| 0 <= j < k && s[j] == x {
        let j = choose|j: int| 0 <= j < k && s[j] == x;
        lemma_first_exists(s, x, j);
    } else {
        assert(is_first_index(s, x, k));
    }
}

/// The first position of `c` in `v`, or `None` when `v` does not hold it.
pub fn position_of(v: &Vec<Column>, c: Column) -> (r: Option<usize>)
    ensures
        match r {
            Some(i) => is_first_index(v@, c, i as int),
            None => !v@.contains(c),
        },
{
    let mut i: usize = 0;
    while i < v.len()
        invariant
            i <= v@.len(),
            forall|j: int| 0 <= j < i ==> v@[j] != c,
        decreases v@.len() - i,
    {
        if v[i] == c {
            return Some(i);
        }
        i = i + 1;
    }
    None
}

/// The columns of `order` that `visible` holds, in the order of `order`.
pub open spec fn visible_subsequence(order: Seq<Column>, visible: Seq<Column>) -> Seq<Column>
    decreases order.len(),
{
    if order.len() == 0 {
        Seq::empty()
    } else {
        let rest = visible_subsequence(order.drop_last(), visible);
        if visible.contains(order.last()) {
            rest.push(order.last())
        } else {
            rest
        }
    }
}

/// The visible-column list after toggling `c`: its first occurrence is
/// removed, or, when absent, it is appended.
pub open spec fn toggled(visible: Seq<Column>, c: Column) -> Seq<Column> {
    if visible.contains(c) {
        visible.remove(first_index(visible, c))
    } else {
        visible.push(c)
    }
}

/// The columns shown are exactly those that are both in the column order and
/// marked visible.
pub proof fn lemma_visible_in_order_members(order: Seq<Column>, visible: Seq<Column>)
    ensures
        forall|c: Column|
            #[trigger] visible_subsequence(order, visible).contains(c) <==> (order.contains(c)
                && visible.contains(c)),
    decreases order.len(),
{
    if order.len() > 0 {
        let init = order.drop_last();
        lemma_visible_in_order_members(init, visible);
        let rest = visible_subsequence(init, visible);
        assert forall|c: Column|
            #[trigger] visible_subsequence(order, visible).contains(c) <==> (order.contains(c)
                && visible.contains(c)) by {
            let r = visible_subsequence(order, visible);
            if r.contains(c) {
                let k = choose|k: int| 0 <= k < r.len() && r[k] == c;
                if k < rest.len() {
                    assert(rest[k] == c);
                    assert(rest.contains(c));
                    let q = choose|q: int| 0 <= q < init.len() && init[q] == c;
                    assert(order[q] == c);
                } else {
                    assert(order[order.len() - 1] == c);
                }
            }
            if order.contains(c) && visible.contains(c) {
                let q = choose|q: int| 0 <= q < order.len() && order[q] == c;
                if q < init.len() {
                    assert(init[q] == c);
                    assert(rest.contains(c));
                    let k = choose|k: int| 0 <= k < rest.len() && rest[k] == c;
                    if visible.contains(order.last()) {
                        assert(r[k] == c);
                    }
                } else {
                    assert(r[r.len() - 1] == c);
                }
            }
        }
    }
}

/// Sorting, ordering and visibility choices of the table.
#[derive(Clone, Debug, PartialEq)]
pub struct TablePreferences {
    pub sort_rules: Vec<SortRule>,
    pub column_order: Vec<Column>,
    pub visible_columns: Vec<Column>,
}

impl Default for TablePreferences {
    /// No sorting, every column in canonical order, the default columns
    /// visible.
    fn default() -> (r: Self)
        ensures
            r.sort_rules@ == Seq::<SortRule>::empty(),
            r.column_order@ == all_columns(),
            r.visible_columns@ == default_visible_columns(),
    {
        let mut column_order: Vec<Column> = Vec::new();
        let mut i: usize = 0;
        while i < Column::ALL.len()
            invariant
                i <= column_count(),
                Column::ALL@ == all_columns(),
                column_order@ == all_columns().take(i as int),
            decreases column_count() - i,
        {
            column_order.push(Column::ALL[i]);
            assert(column_order@ =~= all_columns().take(i + 1));
            i = i + 1;
        }
        assert(column_order@ =~= all_columns());
        let mut visible_columns: Vec<Column> = Vec::new();
        let mut i: usize = 0;
        while i < Column::DEFAULT_VISIBLE.len()
            invariant
                i <= 4,
                Column::DEFAULT_VISIBLE@ == default_visible_columns(),
                visible_columns@ == default_visible_columns().take(i as int),
            decreases 4 - i,
        {
            visible_columns.push(Column::DEFAULT_VISIBLE[i]);
            assert(visible_columns@ =~= default_visible_columns().take(i + 1));
            i = i + 1;
        }
        assert(visible_columns@ =~= default_visible_columns());
        TablePreferences { sort_rules: Vec::new(), column_order, visible_columns }
    }
}

impl TablePreferences {
    /// The visible columns, in column order.
    pub fn visible_in_order(&self) -> (r: Vec<Column>)
        ensures
            r@ == visible_subsequence(self.column_order@, self.visible_columns@),
    {
        let mut r: Vec<Column> = Vec::new();
        let mut i: usize = 0;
        while i < self.column_order.len()
            invariant
                i <= self.column_order@.len(),
                r@ == visible_subsequence(
                    self.column_order@.take(i as int),
                    self.visible_columns@,
                ),
            decreases self.column_order@.len() - i,
        {
            let c = self.column_order[i];
            assert(self.column_order@.take(i + 1).drop_last() =~= self.column_order@.take(
                i as int,
            ));
            if position_of(&self.visible_columns, c).is_some() {
                r.push(c);
            }
            i = i + 1;
        }
        assert(self.column_order@.take(self.column_order@.len() as int) =~= self.column_order@);
        r
    }

    /// Show a hidden column (appending it), or hide a shown one (removing its
    /// first occurrence).
    pub fn toggle_column(&mut self, column: Column)
        ensures
            final(self).visible_columns@ == toggled(old(self).visible_columns@, column),
            final(self).sort_rules@ == old(self).sort_rules@,
            final(self).column_order@ == old(self).column_order@,
    {
        proof {
            lemma_first_index(self.visible_columns@, column);
        }
        match position_of(&self.visible_columns, column) {
            Some(index) => {
                self.visible_columns.remove(index);
            },
            None => {
                self.visible_columns.push(column);
            },
        }
    }

    /// Whether the column is shown.
    pub fn is_column_visible(&self, column: Column) -> (r: bool)
        ensures
            r == self.visible_columns@.contains(column),
    {
        position_of(&self.visible_columns, column).is_some()
    }
}

/// Toggling a column flips its visibility and leaves every other column's
/// visibility as it was; a list without repeated columns keeps none.
pub proof fn lemma_toggle_flips_visibility(visible: Seq<Column>, c: Column)
    requires
        visible.no_duplicates(),
    ensures
        toggled(visible, c).contains(c) == !visible.contains(c),
        forall|d: Column| d != c ==> #[trigger] toggled(visible, c).contains(d) == visible.contains(d),
        toggled(visible, c).no_duplicates(),
{
    lemma_first_index(visible, c);
    let t = toggled(visible, c);
    if visible.contains(c) {
        let f = first_index(visible, c);
        assert forall|d: Column| d != c implies #[trigger] t.contains(d) == visible.contains(d) by {
            if visible.contains(d) {
                let k = choose|k: int| 0 <= k < visible.len() && visible[k] == d;
                if k < f {
                    assert(t[k] == d);
                } else {
                    assert(k != f);
                    assert(t[k - 1] == d);
                }
            }
            if t.contains(d) {
                let k = choose|k: int| 0 <= k < t.len() && t[k] == d;
                if k < f {
                    assert(visible[k] == d);
                } else {
                    assert(visible[k + 1] == d);
                }
            }
        }
        if t.contains(c) {
            let k = choose|k: int| 0 <= k < t.len() && t[k] == c;
            if k < f {
                assert(visible[k] == c);
            } else {
                assert(visible[k + 1] == c);
                assert(visible[f] == c);
            }
        }
        assert forall|i: int, j: int| 0 <= i < t.len() && 0 <= j < t.len() && i != j implies t[i]
            != t[j] by {
            let i2 = if i < f { i } else { i + 1 };
            let j2 = if j < f { j } else { j + 1 };
            assert(t[i] == visible[i2]);
            assert(t[j] == visible[j2]);
        }
    } else {
        assert(t[t.len() - 1] == c);
        assert forall|d: Column| d != c implies #[trigger] t.contains(d) == visible.contains(d) by {
            if visible.contains(d) {
                let k = choose|k: int| 0 <= k < visible.len() && visible[k] == d;
                assert(t[k] == d);
            }
            if t.contains(d) {
                let k = choose|k: int| 0 <= k < t.len() && t[k] == d;
                assert(visible[k] == d);
            }
        }
        assert forall|i: int, j: int| 0 <= i < t.len() && 0 <= j < t.len() && i != j implies t[i]
            != t[j] by {
            if i < visible.len() && j < visible.len() {
            } else if i < visible.len() {
                assert(visible.contains(t[i]));
            } else {
                assert(visible.contains(t[j]));
            }
        }
    }
}

/// Toggling a hidden column twice restores the visible-column list exactly.
pub proof fn lemma_toggle_hidden_twice(visible: Seq<Column>, c: Column)
    requires
        !visible.contains(c),
    ensures
        toggled(toggled(visible, c), c) == visible,
{
    let t = visible.push(c);
    assert(t[visible.len() as int] == c);
    assert(t.contains(c));
    lemma_first_index(t, c);
    assert(is_first_index(t, c, visible.len() as int)) by {
        assert forall|j: int| 0 <= j < visible.len() implies t[j] != c by {
            assert(t[j] == visible[j]);
        }
    }
    assert(t.remove(visible.len() as int) =~= visible);
}

} // verus!
