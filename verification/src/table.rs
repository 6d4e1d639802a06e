//! Table logic: sort-rule updates driven by header clicks, sort indicators,
//! filtering, stable multi-column sorting and pagination.

use vstd::prelude::*;

use crate::model::{Column, SortDirection, SortRule, TablePreferences, Uri};
use crate::model;
use crate::text::{
    chars_of, compare_text, every_word_occurs, find_text, join_strings, to_lowercase, trimmed,
    Order,
};
use crate::text;

verus! {

/// Rows rendered per page.
pub const PAGE_SIZE: usize = 30;

// ---------------------------------------------------------------------------
// Sort rules
// ---------------------------------------------------------------------------

/// Direction of the first rule on `column`, if any rule names it.
pub open spec fn rule_direction(rules: Seq<SortRule>, column: Column) -> Option<SortDirection>
    decreases rules.len(),
{
    if rules.len() == 0 {
        None
    } else if rules[0].column == column {
        Some(rules[0].direction)
    } else {
        rule_direction(rules.drop_first(), column)
    }
}

/// The rules that do not name `column`, in their order.
pub open spec fn rules_without(rules: Seq<SortRule>, column: Column) -> Seq<SortRule>
    decreases rules.len(),
{
    if rules.len() == 0 {
        Seq::empty()
    } else {
        let rest = rules_without(rules.drop_last(), column);
        if rules.last().column == column {
            rest
        } else {
            rest.push(rules.last())
        }
    }
}

/// The rule list after a click on `column`'s header. Without `multi_sort`
/// the other rules are dropped; with it they are kept. The clicked column
/// then cycles: unsorted, ascending, descending, unsorted again.
pub open spec fn clicked_rules(rules: Seq<SortRule>, column: Column, multi_sort: bool) -> Seq<
    SortRule,
> {
    let base = if multi_sort {
        rules_without(rules, column)
    } else {
        Seq::empty()
    };
    match rule_direction(rules, column) {
        None => base.push(SortRule { column, direction: SortDirection::Ascending }),
        Some(SortDirection::Ascending) => base.push(
            SortRule { column, direction: SortDirection::Descending },
        ),
        Some(SortDirection::Descending) => base,
    }
}

fn find_direction(rules: &Vec<SortRule>, column: Column) -> (r: Option<SortDirection>)
    ensures
        r == rule_direction(rules@, column),
{
    let mut i: usize = 0;
    assert(rules@.skip(0) =~= rules@);
    while i < rules.len()
        invariant
            i <= rules@.len(),
            rule_direction(rules@, column) == rule_direction(rules@.skip(i as int), column),
        decreases rules@.len() - i,
    {
        if rules[i].column == column {
            return Some(rules[i].direction);
        }
        assert(rules@.skip(i as int).drop_first() =~= rules@.skip(i + 1));
        i = i + 1;
    }
    None
}

/// Update sort rules on a column click. Passing `multi_sort` (e.g. Shift)
/// keeps existing rules and adds a secondary sort.
pub fn update_sort_rules(rules: &mut Vec<SortRule>, column: Column, multi_sort: bool)
    ensures
        final(rules)@ == clicked_rules(old(rules)@, column, multi_sort),
{
    let next = find_direction(rules, column);
    let mut kept: Vec<SortRule> = Vec::new();
    if multi_sort {
        let mut i: usize = 0;
        while i < rules.len()
            invariant
                i <= rules@.len(),
                kept@ == rules_without(rules@.take(i as int), column),
            decreases rules@.len() - i,
        {
            assert(rules@.take(i + 1).drop_last() =~= rules@.take(i as int));
            if rules[i].column != column {
                kept.push(rules[i]);
            }
            i = i + 1;
        }
        assert(rules@.take(rules@.len() as int) =~= rules@);
    }
    match next {
        None => kept.push(SortRule { column, direction: SortDirection::Ascending }),
        Some(SortDirection::Ascending) => kept.push(
            SortRule { column, direction: SortDirection::Descending },
        ),
        Some(SortDirection::Descending) => {},
    }
    *rules = kept;
}

/// Sort indicator shown in a column header: an up arrow for ascending, a down
/// arrow for descending, nothing when the column is unsorted.
pub open spec fn indicator(rules: Seq<SortRule>, column: Column) -> Seq<char> {
    match rule_direction(rules, column) {
        Some(SortDirection::Ascending) => "↑"@,
        Some(SortDirection::Descending) => "↓"@,
        None => ""@,
    }
}

/// Get sort indicator string for display.
pub fn sort_indicator(column: Column, rules: &[SortRule]) -> (r: &'static str)
    ensures
        r@ == indicator(rules@, column),
{
    let mut i: usize = 0;
    assert(rules@.skip(0) =~= rules@);
    while i < rules.len()
        invariant
            i <= rules@.len(),
            rule_direction(rules@, column) == rule_direction(rules@.skip(i as int), column),
        decreases rules@.len() - i,
    {
        if rules[i].column == column {
            return match rules[i].direction {
                SortDirection::Ascending => "↑",
                SortDirection::Descending => "↓",
            };
        }
        assert(rules@.skip(i as int).drop_first() =~= rules@.skip(i + 1));
        i = i + 1;
    }
    ""
}

/// Repeated plain clicks on a column that is not sorted yet cycle through
/// ascending, descending and unsorted.
pub proof fn lemma_click_cycle(rules: Seq<SortRule>, column: Column)
    requires
        rule_direction(rules, column) is None,
    ensures
        clicked_rules(rules, column, false) == seq![
            SortRule { column, direction: SortDirection::Ascending },
        ],
        clicked_rules(clicked_rules(rules, column, false), column, false) == seq![
            SortRule { column, direction: SortDirection::Descending },
        ],
        clicked_rules(
            clicked_rules(clicked_rules(rules, column, false), column, false),
            column,
            false,
        ) == Seq::<SortRule>::empty(),
{
    let one = clicked_rules(rules, column, false);
    assert(one =~= seq![SortRule { column, direction: SortDirection::Ascending }]);
    assert(one.drop_first() =~= Seq::<SortRule>::empty());
    let two = clicked_rules(one, column, false);
    assert(two =~= seq![SortRule { column, direction: SortDirection::Descending }]);
    assert(two.drop_first() =~= Seq::<SortRule>::empty());
}

proof fn lemma_rules_without_direction(rules: Seq<SortRule>, column: Column, other: Column)
    requires
        other != column,
    ensures
        rule_direction(rules_without(rules, column), other) == rule_direction(rules, other),
        rule_direction(rules_without(rules, column), column) is None,
    decreases rules.len(),
{
    if rules.len() > 0 {
        lemma_rules_without_direction(rules.drop_last(), column, other);
        lemma_direction_push(rules_without(rules.drop_last(), column), rules.last(), other);
        lemma_direction_push(rules_without(rules.drop_last(), column), rules.last(), column);
        lemma_direction_push(rules.drop_last(), rules.last(), other);
        assert(rules.drop_last().push(rules.last()) =~= rules);
    }
}

proof fn lemma_direction_push(rules: Seq<SortRule>, rule: SortRule, column: Column)
    ensures
        rule_direction(rules.push(rule), column) == (if rule_direction(rules, column) is Some {
            rule_direction(rules, column)
        } else if rule.column == column {
            Some(rule.direction)
        } else {
            None
        }),
    decreases rules.len(),
{
    if rules.len() > 0 {
        lemma_direction_push(rules.drop_first(), rule, column);
        assert(rules.push(rule)[0] == rules[0]);
        assert(rules.push(rule).drop_first() =~= rules.drop_first().push(rule));
    } else {
        assert(rules.push(rule)[0] == rule);
        assert(rules.push(rule).drop_first() =~= Seq::<SortRule>::empty());
        assert(rule_direction(Seq::<SortRule>::empty(), column) is None);
    }
}

/// With `multi_sort`, a click leaves the rules of every other column as they
/// were, in the same order, and each column keeps the direction it had.
pub proof fn lemma_multi_sort_keeps_other_rules(
    rules: Seq<SortRule>,
    column: Column,
    other: Column,
)
    requires
        other != column,
    ensures
        rules_without(clicked_rules(rules, column, true), column) == rules_without(rules, column),
        rule_direction(clicked_rules(rules, column, true), other) == rule_direction(rules, other),
{
    let base = rules_without(rules, column);
    lemma_rules_without_idempotent(rules, column);
    lemma_rules_without_direction(rules, column, other);
    let r = clicked_rules(rules, column, true);
    match rule_direction(rules, column) {
        Some(SortDirection::Descending) => {},
        Some(SortDirection::Ascending) => {
            let rule = SortRule { column, direction: SortDirection::Descending };
            assert(r.drop_last() =~= base);
            lemma_direction_push(base, rule, other);
        },
        None => {
            let rule = SortRule { column, direction: SortDirection::Ascending };
            assert(r.drop_last() =~= base);
            lemma_direction_push(base, rule, other);
        },
    }
}

/// A click on a column's header, plain or with `multi_sort`, moves that
/// column one step along unsorted, ascending, descending, unsorted. A column
/// that no rule named is added as the last rule, ascending; one that was
/// ascending becomes the last rule, descending; one that was descending is
/// no longer named by any rule.
pub proof fn lemma_click_advances_column(rules: Seq<SortRule>, column: Column, multi_sort: bool)
    ensures
        rule_direction(clicked_rules(rules, column, multi_sort), column) == (match rule_direction(
            rules,
            column,
        ) {
            None => Some(SortDirection::Ascending),
            Some(SortDirection::Ascending) => Some(SortDirection::Descending),
            Some(SortDirection::Descending) => None::<SortDirection>,
        }),
        rule_direction(rules, column) is None ==> clicked_rules(rules, column, multi_sort).len()
            > 0 && clicked_rules(rules, column, multi_sort).last() == (SortRule {
            column,
            direction: SortDirection::Ascending,
        }),
        rule_direction(rules, column) == Some(SortDirection::Ascending) ==> clicked_rules(
            rules,
            column,
            multi_sort,
        ).len() > 0 && clicked_rules(rules, column, multi_sort).last() == (SortRule {
            column,
            direction: SortDirection::Descending,
        }),
{
    let other = if column == Column::Title {
        Column::Host
    } else {
        Column::Title
    };
    lemma_rules_without_direction(rules, column, other);
    let base: Seq<SortRule> = if multi_sort {
        rules_without(rules, column)
    } else {
        Seq::empty()
    };
    assert(rule_direction(base, column) is None);
    lemma_direction_push(base, SortRule { column, direction: SortDirection::Ascending }, column);
    lemma_direction_push(base, SortRule { column, direction: SortDirection::Descending }, column);
}

proof fn lemma_rules_without_idempotent(rules: Seq<SortRule>, column: Column)
    ensures
        rules_without(rules_without(rules, column), column) == rules_without(rules, column),
    decreases rules.len(),
{
    if rules.len() > 0 {
        lemma_rules_without_idempotent(rules.drop_last(), column);
        let rest = rules_without(rules.drop_last(), column);
        if rules.last().column != column {
            assert(rest.push(rules.last()).drop_last() =~= rest);
        }
    }
}

/// No column is named by two rules.
pub open spec fn rules_distinct(rules: Seq<SortRule>) -> bool {
    forall|i: int, j: int|
        0 <= i < rules.len() && 0 <= j < rules.len() && i != j ==> rules[i].column
            != rules[j].column
}

proof fn lemma_rules_without_members(rules: Seq<SortRule>, column: Column)
    ensures
        forall|k: int|
            0 <= k < rules_without(rules, column).len() ==> #[trigger] rules_without(
                rules,
                column,
            )[k].column != column,
        forall|k: int|
            0 <= k < rules_without(rules, column).len() ==> rules.contains(
                #[trigger] rules_without(rules, column)[k],
            ),
        rules_distinct(rules) ==> rules_distinct(rules_without(rules, column)),
    decreases rules.len(),
{
    if rules.len() > 0 {
        let init = rules.drop_last();
        lemma_rules_without_members(init, column);
        let rest = rules_without(init, column);
        assert forall|k: int| 0 <= k < rest.len() implies rules.contains(#[trigger] rest[k]) by {
            let j = choose|j: int| 0 <= j < init.len() && init[j] == rest[k];
            assert(rules[j] == rest[k]);
        }
        if rules_distinct(rules) {
            assert(rules_distinct(init)) by {
                assert forall|i: int, j: int|
                    0 <= i < init.len() && 0 <= j < init.len() && i != j implies init[i].column
                    != init[j].column by {
                    assert(init[i] == rules[i]);
                    assert(init[j] == rules[j]);
                }
            }
            if rules.last().column != column {
                let r = rest.push(rules.last());
                assert forall|i: int, j: int|
                    0 <= i < r.len() && 0 <= j < r.len() && i != j implies r[i].column
                    != r[j].column by {
                    if i < rest.len() && j < rest.len() {
                    } else if i < rest.len() {
                        let a = choose|a: int| 0 <= a < init.len() && init[a] == rest[i];
                        assert(rules[a] == r[i]);
                        assert(rules[rules.len() - 1] == r[j]);
                    } else {
                        let a = choose|a: int| 0 <= a < init.len() && init[a] == rest[j];
                        assert(rules[a] == r[j]);
                        assert(rules[rules.len() - 1] == r[i]);
                    }
                }
            }
        }
    }
}

/// A click never makes two rules name the same column.
pub proof fn lemma_click_keeps_rules_distinct(
    rules: Seq<SortRule>,
    column: Column,
    multi_sort: bool,
)
    requires
        rules_distinct(rules),
    ensures
        rules_distinct(clicked_rules(rules, column, multi_sort)),
{
    lemma_rules_without_members(rules, column);
    let base: Seq<SortRule> = if multi_sort {
        rules_without(rules, column)
    } else {
        Seq::empty()
    };
    assert(rules_distinct(base));
    let r = clicked_rules(rules, column, multi_sort);
    if r.len() > base.len() {
        assert forall|i: int, j: int|
            0 <= i < r.len() && 0 <= j < r.len() && i != j implies r[i].column != r[j].column by {
            if i < base.len() && j < base.len() {
                assert(r[i] == base[i]);
                assert(r[j] == base[j]);
            } else if i < base.len() {
                assert(r[i] == base[i]);
            } else {
                assert(r[j] == base[j]);
            }
        }
    }
}

// ---------------------------------------------------------------------------
// Filtering
// ---------------------------------------------------------------------------

/// The values of every column of `u`, in canonical column order.
pub open spec fn all_values(u: Uri) -> Seq<Seq<char>> {
    Seq::new(
        model::column_count() as nat,
        |k: int| model::column_value(model::all_columns()[k], u),
    )
}

/// What a global search looks in: every column's value, joined by single
/// spaces, lowercased.
pub open spec fn searchable_text(u: Uri) -> Seq<char> {
    text::lowercase(text::join(all_values(u), " "@))
}

/// Every word of the trimmed, lowercased query occurs in the resource's
/// searchable text (an empty query matches everything).
pub open spec fn query_matches(u: Uri, query: Seq<char>) -> bool {
    text::all_words_in(text::lowercase(text::trim(query)), searchable_text(u))
}

/// With exactly one filter per column, each column's lowercased value
/// contains that column's lowercased filter; any other number of filters
/// filters nothing.
pub open spec fn filters_match(u: Uri, filters: Seq<String>) -> bool {
    filters.len() != model::column_count() || forall|c: Column|
        text::contains_text(
            text::lowercase(#[trigger] model::column_value(c, u)),
            text::lowercase(filters[model::column_index(c)]@),
        )
}

/// One empty filter per column.
pub open spec fn empty_filters(filters: Seq<String>) -> bool {
    filters.len() == model::column_count() && forall|k: int|
        0 <= k < filters.len() ==> #[trigger] filters[k]@ == Seq::<char>::empty()
}

/// A resource is listed when it passes the column filters and the query.
pub open spec fn row_selected(u: Uri, filters: Seq<String>, query: Seq<char>) -> bool {
    filters_match(u, filters) && query_matches(u, query)
}

fn matches_global_query(uri: &Uri, query: &str) -> (r: bool)
    ensures
        r == query_matches(*uri, query@),
        text::trim(query@).len() == 0 ==> r,
{
    let t = trimmed(query);
    let q = chars_of(to_lowercase(t.as_str()).as_str());
    if q.len() == 0 {
        assert forall|i: int, j: int| #[trigger] text::is_word(q@, i, j) implies text::contains_text(
            searchable_text(*uri),
            q@.subrange(i, j),
        ) by {}
        return true;
    }
    let mut values: Vec<String> = Vec::new();
    let mut k: usize = 0;
    while k < Column::count()
        invariant
            k <= model::column_count(),
            text::texts(values@) =~= all_values(*uri).take(k as int),
        decreases model::column_count() - k,
    {
        let v = Column::at(k).value(uri);
        let ghost before = values@;
        values.push(v);
        assert(values@ == before.push(v));
        assert(text::texts(values@) =~= text::texts(before).push(v@));
        k = k + 1;
    }
    assert(all_values(*uri).take(model::column_count()) =~= all_values(*uri));
    let joined = join_strings(&values, " ");
    let searchable = chars_of(to_lowercase(joined.as_str()).as_str());
    every_word_occurs(&q, &searchable)
}

fn matches_all_filters(uri: &Uri, filters: &[String]) -> (r: bool)
    ensures
        r == filters_match(*uri, filters@),
        empty_filters(filters@) ==> r,
{
    if filters.len() != Column::count() {
        return true;
    }
    proof {
        model::lemma_column_positions();
    }
    let mut k: usize = 0;
    while k < Column::count()
        invariant
            k <= model::column_count(),
            filters@.len() == model::column_count(),
            forall|c: Column|
                model::column_index(c) < k ==> text::contains_text(
                    text::lowercase(#[trigger] model::column_value(c, *uri)),
                    text::lowercase(filters@[model::column_index(c)]@),
                ),
            forall|c: Column| #[trigger] model::all_columns()[model::column_index(c)] == c,
            forall|j: int|
                0 <= j < model::column_count() ==> #[trigger] model::column_index(
                    model::all_columns()[j],
                ) == j,
        decreases model::column_count() - k,
    {
        let column = Column::at(k);
        let value = chars_of(to_lowercase(column.value(uri).as_str()).as_str());
        let filter = chars_of(to_lowercase(filters[column.index()].as_str()).as_str());
        proof {
            if empty_filters(filters@) {
                assert(filters@[k as int]@.len() == 0);
                assert(value@.subrange(0, 0) =~= filter@);
                assert(text::occurs_at(filter@, value@, 0));
            }
        }
        if !find_text(&value, &filter) {
            return false;
        }
        k = k + 1;
    }
    true
}

// ---------------------------------------------------------------------------
// Sorting
// ---------------------------------------------------------------------------

/// An order read in the rule's direction.
pub open spec fn directed(direction: SortDirection, o: Order) -> Order {
    match direction {
        SortDirection::Ascending => o,
        SortDirection::Descending => text::flipped(o),
    }
}

/// How the sort rules order two resources: the first rule whose column
/// values differ decides, in its direction; when none does, they tie.
pub open spec fn row_order(rules: Seq<SortRule>, a: Uri, b: Uri) -> Order
    decreases rules.len(),
{
    if rules.len() == 0 {
        Order::Equal
    } else {
        let o = text::lex_order(
            model::column_value(rules[0].column, a),
            model::column_value(rules[0].column, b),
        );
        if o != Order::Equal {
            directed(rules[0].direction, o)
        } else {
            row_order(rules.drop_first(), a, b)
        }
    }
}

/// Swapping two resources flips how the rules order them.
pub proof fn lemma_row_order_flip(rules: Seq<SortRule>, a: Uri, b: Uri)
    ensures
        row_order(rules, b, a) == text::flipped(row_order(rules, a, b)),
    decreases rules.len(),
{
    if rules.len() > 0 {
        let c = rules[0].column;
        text::lemma_lex_flip(model::column_value(c, a), model::column_value(c, b));
        lemma_row_order_flip(rules.drop_first(), a, b);
    }
}

/// The order the rules induce is transitive.
pub proof fn lemma_row_order_transitive(rules: Seq<SortRule>, a: Uri, b: Uri, c: Uri)
    requires
        row_order(rules, a, b) != Order::Greater,
        row_order(rules, b, c) != Order::Greater,
    ensures
        row_order(rules, a, c) != Order::Greater,
    decreases rules.len(),
{
    if rules.len() > 0 {
        let col = rules[0].column;
        let va = model::column_value(col, a);
        let vb = model::column_value(col, b);
        let vc = model::column_value(col, c);
        text::lemma_lex_equal(va, vb);
        text::lemma_lex_equal(vb, vc);
        text::lemma_lex_equal(va, vc);
        text::lemma_lex_transitive(va, vb, vc);
        if text::lex_order(va, vb) == Order::Equal && text::lex_order(vb, vc) == Order::Equal {
            lemma_row_order_transitive(rules.drop_first(), a, b, c);
        }
    }
}

/// `p` lists each of the positions `0..n` exactly once.
pub open spec fn is_permutation(p: Seq<usize>, n: int) -> bool {
    &&& p.len() == n
    &&& p.no_duplicates()
    &&& forall|i: int| 0 <= i < p.len() ==> #[trigger] p[i] < n
    &&& forall|x: usize| x < n ==> #[trigger] p.contains(x)
}

/// Listing `rows` in the order `p` is sorted by the rules, and rows the rules
/// tie keep their relative order from the input.
pub open spec fn sorted_stably(rules: Seq<SortRule>, rows: Seq<Uri>, p: Seq<usize>) -> bool {
    forall|i: int, j: int|
        0 <= i < j < p.len() ==> {
            &&& row_order(rules, rows[#[trigger] p[i] as int], rows[#[trigger] p[j] as int])
                != Order::Greater
            &&& (row_order(rules, rows[p[i] as int], rows[p[j] as int]) == Order::Equal ==> p[i]
                < p[j])
        }
}

/// The resources behind a list of references.
pub open spec fn resources(rows: Seq<&Uri>) -> Seq<Uri> {
    rows.map_values(|u: &Uri| *u)
}

fn compare_rows(
    ka: &Vec<Vec<char>>,
    kb: &Vec<Vec<char>>,
    rules: &Vec<SortRule>,
    Ghost(a): Ghost<Uri>,
    Ghost(b): Ghost<Uri>,
) -> (r: Order)
    requires
        ka@.len() == rules@.len(),
        kb@.len() == rules@.len(),
        forall|k: int|
            0 <= k < rules@.len() ==> #[trigger] ka@[k]@ == model::column_value(
                rules@[k].column,
                a,
            ),
        forall|k: int|
            0 <= k < rules@.len() ==> #[trigger] kb@[k]@ == model::column_value(
                rules@[k].column,
                b,
            ),
    ensures
        r == row_order(rules@, a, b),
{
    let mut k: usize = 0;
    assert(rules@.skip(0) =~= rules@);
    while k < rules.len()
        invariant
            k <= rules@.len(),
            ka@.len() == rules@.len(),
            kb@.len() == rules@.len(),
            forall|i: int|
                0 <= i < rules@.len() ==> #[trigger] ka@[i]@ == model::column_value(
                    rules@[i].column,
                    a,
                ),
            forall|i: int|
                0 <= i < rules@.len() ==> #[trigger] kb@[i]@ == model::column_value(
                    rules@[i].column,
                    b,
                ),
            row_order(rules@, a, b) == row_order(rules@.skip(k as int), a, b),
        decreases rules@.len() - k,
    {
        let o = compare_text(&ka[k], &kb[k]);
        assert(rules@.skip(k as int)[0] == rules@[k as int]);
        if o != Order::Equal {
            return match rules[k].direction {
                SortDirection::Ascending => o,
                SortDirection::Descending => match o {
                    Order::Less => Order::Greater,
                    Order::Equal => Order::Equal,
                    Order::Greater => Order::Less,
                },
            };
        }
        assert(rules@.skip(k as int).drop_first() =~= rules@.skip(k + 1));
        k = k + 1;
    }
    Order::Equal
}

/// Sort `rows` by the preferences' sort rules, keeping tied rows in their
/// relative order from the input.
fn apply_sort(rows: &mut Vec<&Uri>, preferences: &TablePreferences)
    ensures
        exists|p: Seq<usize>|
            {
                &&& is_permutation(p, old(rows)@.len() as int)
                &&& sorted_stably(preferences.sort_rules@, resources(old(rows)@), p)
                &&& final(rows)@.len() == p.len()
                &&& forall|i: int|
                    0 <= i < p.len() ==> *final(rows)@[i] == *old(rows)@[#[trigger] p[i] as int]
            },
{
    let rules = &preferences.sort_rules;
    let n = rows.len();
    let ghost rs = resources(rows@);
    let mut keys: Vec<Vec<Vec<char>>> = Vec::new();
    let mut p: usize = 0;
    while p < n
        invariant
            p <= n,
            n == rows@.len(),
            rs == resources(rows@),
            keys@.len() == p,
            forall|q: int| 0 <= q < p ==> #[trigger] keys@[q]@.len() == rules@.len(),
            forall|q: int, k: int|
                0 <= q < p && 0 <= k < rules@.len() ==> #[trigger] keys@[q]@[k]@
                    == model::column_value(rules@[k].column, rs[q]),
        decreases n - p,
    {
        let mut row_keys: Vec<Vec<char>> = Vec::new();
        let mut k: usize = 0;
        while k < rules.len()
            invariant
                k <= rules@.len(),
                p < n,
                n == rows@.len(),
                rs == resources(rows@),
                row_keys@.len() == k,
                forall|i: int|
                    0 <= i < k ==> #[trigger] row_keys@[i]@ == model::column_value(
                        rules@[i].column,
                        rs[p as int],
                    ),
            decreases rules@.len() - k,
        {
            row_keys.push(chars_of(rules[k].column.value(rows[p]).as_str()));
            k = k + 1;
        }
        keys.push(row_keys);
        p = p + 1;
    }
    let mut perm: Vec<usize> = Vec::new();
    let mut k: usize = 0;
    while k < n
        invariant
            k <= n,
            n == rows@.len(),
            rs == resources(rows@),
            keys@.len() == n,
            forall|q: int| 0 <= q < n ==> #[trigger] keys@[q]@.len() == rules@.len(),
            forall|q: int, r: int|
                0 <= q < n && 0 <= r < rules@.len() ==> #[trigger] keys@[q]@[r]@
                    == model::column_value(rules@[r].column, rs[q]),
            is_permutation(perm@, k as int),
            sorted_stably(rules@, rs, perm@),
        decreases n - k,
    {
        let mut j: usize = perm.len();
        while j > 0 && compare_rows(
            &keys[perm[j - 1]],
            &keys[k],
            rules,
            Ghost(rs[perm@[j - 1] as int]),
            Ghost(rs[k as int]),
        ) == Order::Greater
            invariant
                j <= perm@.len(),
                perm@.len() == k,
                k < n,
                n == rows@.len(),
                keys@.len() == n,
                forall|q: int| 0 <= q < n ==> #[trigger] keys@[q]@.len() == rules@.len(),
                forall|q: int, r: int|
                    0 <= q < n && 0 <= r < rules@.len() ==> #[trigger] keys@[q]@[r]@
                        == model::column_value(rules@[r].column, rs[q]),
                is_permutation(perm@, k as int),
                forall|i: int|
                    j <= i < k ==> row_order(rules@, rs[#[trigger] perm@[i] as int], rs[k as int])
                        == Order::Greater,
            decreases j,
        {
            j = j - 1;
        }
        let ghost old_perm = perm@;
        perm.insert(j, k);
        proof {
            let np = perm@;
            assert(np == old_perm.insert(j as int, k));
            assert forall|i: int| 0 <= i < np.len() implies #[trigger] np[i] < k + 1 by {
                if i < j {
                    assert(np[i] == old_perm[i]);
                } else if i > j {
                    assert(np[i] == old_perm[i - 1]);
                }
            }
            assert forall|x: usize| x < k + 1 implies #[trigger] np.contains(x) by {
                if x == k {
                    assert(np[j as int] == k);
                } else {
                    assert(old_perm.contains(x));
                    let i = choose|i: int| 0 <= i < old_perm.len() && old_perm[i] == x;
                    if i < j {
                        assert(np[i] == x);
                    } else {
                        assert(np[i + 1] == x);
                    }
                }
            }
            assert forall|a: int, b: int|
                0 <= a < np.len() && 0 <= b < np.len() && a != b implies np[a] != np[b] by {
                let a2 = if a < j { a } else { a - 1 };
                let b2 = if b < j { b } else { b - 1 };
                if a != j && b != j {
                    assert(np[a] == old_perm[a2]);
                    assert(np[b] == old_perm[b2]);
                } else if a == j {
                    assert(np[b] == old_perm[b2]);
                    assert(old_perm[b2] < k);
                } else {
                    assert(np[a] == old_perm[a2]);
                    assert(old_perm[a2] < k);
                }
            }
            assert forall|a: int, b: int| 0 <= a < b < np.len() implies {
                &&& row_order(rules@, rs[#[trigger] np[a] as int], rs[#[trigger] np[b] as int])
                    != Order::Greater
                &&& (row_order(rules@, rs[np[a] as int], rs[np[b] as int]) == Order::Equal
                    ==> np[a] < np[b])
            } by {
                if b < j {
                    assert(np[a] == old_perm[a]);
                    assert(np[b] == old_perm[b]);
                } else if a > j {
                    assert(np[a] == old_perm[a - 1]);
                    assert(np[b] == old_perm[b - 1]);
                } else if a < j && b > j {
                    assert(np[a] == old_perm[a]);
                    assert(np[b] == old_perm[b - 1]);
                } else if a == j {
                    assert(np[b] == old_perm[b - 1]);
                    lemma_row_order_flip(rules@, rs[old_perm[b - 1] as int], rs[k as int]);
                } else {
                    // b == j: the row at position a comes before the insertion point
                    assert(np[a] == old_perm[a]);
                    assert(old_perm[a] < k);
                    let last = old_perm[j - 1];
                    assert(row_order(rules@, rs[last as int], rs[k as int]) != Order::Greater);
                    if a < j - 1 {
                        assert(row_order(rules@, rs[old_perm[a] as int], rs[last as int])
                            != Order::Greater);
                        lemma_row_order_transitive(
                            rules@,
                            rs[old_perm[a] as int],
                            rs[last as int],
                            rs[k as int],
                        );
                    }
                }
            }
        }
        k = k + 1;
    }
    let mut sorted: Vec<&Uri> = Vec::new();
    let mut i: usize = 0;
    while i < n
        invariant
            i <= n,
            n == rows@.len(),
            is_permutation(perm@, n as int),
            sorted@.len() == i,
            forall|q: int| 0 <= q < i ==> *sorted@[q] == *rows@[#[trigger] perm@[q] as int],
        decreases n - i,
    {
        sorted.push(rows[perm[i]]);
        i = i + 1;
    }
    let ghost old_rows = rows@;
    *rows = sorted;
    assert(is_permutation(perm@, old_rows.len() as int));
    assert(sorted_stably(preferences.sort_rules@, resources(old_rows), perm@));
}


/// `order` lists, each exactly once, the positions of the resources that the
/// filters and the query select, sorted stably by the rules.
pub open spec fn sorted_selection(
    uris: Seq<Uri>,
    rules: Seq<SortRule>,
    filters: Seq<String>,
    query: Seq<char>,
    order: Seq<usize>,
) -> bool {
    &&& order.no_duplicates()
    &&& forall|i: int|
        0 <= i < order.len() ==> #[trigger] order[i] < uris.len() && row_selected(
            uris[order[i] as int],
            filters,
            query,
        )
    &&& forall|k: usize|
        k < uris.len() && row_selected(uris[k as int], filters, query) ==> #[trigger] order.contains(
            k,
        )
    &&& sorted_stably(rules, uris, order)
}

/// Filter and sort URIs based on per-column filters and the global query.
pub fn filter_and_sort<'a>(
    uris: &'a [Uri],
    preferences: &TablePreferences,
    filters: &[String],
    global_query: &str,
) -> (r: Vec<&'a Uri>)
    ensures
        exists|order: Seq<usize>|
            {
                &&& sorted_selection(
                    uris@,
                    preferences.sort_rules@,
                    filters@,
                    global_query@,
                    order,
                )
                &&& r@.len() == order.len()
                &&& forall|i: int|
                    0 <= i < order.len() ==> *r@[i] == uris@[#[trigger] order[i] as int]
            },
        empty_filters(filters@) && text::trim(global_query@).len() == 0 ==> r@.len()
            == uris@.len(),
{
    let mut rows: Vec<&'a Uri> = Vec::new();
    let ghost mut sel: Seq<usize> = Seq::empty();
    let mut k: usize = 0;
    while k < uris.len()
        invariant
            k <= uris@.len(),
            rows@.len() == sel.len(),
            forall|i: int| 0 <= i < sel.len() ==> *rows@[i] == uris@[#[trigger] sel[i] as int],
            forall|i: int, j: int| 0 <= i < j < sel.len() ==> sel[i] < sel[j],
            forall|i: int|
                0 <= i < sel.len() ==> #[trigger] sel[i] < k && row_selected(
                    uris@[sel[i] as int],
                    filters@,
                    global_query@,
                ),
            forall|x: usize|
                x < k && row_selected(uris@[x as int], filters@, global_query@)
                    ==> #[trigger] sel.contains(x),
            empty_filters(filters@) && text::trim(global_query@).len() == 0 ==> sel.len() == k,
        decreases uris@.len() - k,
    {
        if matches_all_filters(&uris[k], filters) && matches_global_query(&uris[k], global_query) {
            rows.push(&uris[k]);
            proof {
                let old_sel = sel;
                sel = sel.push(k);
                assert forall|x: usize|
                    x < k + 1 && row_selected(uris@[x as int], filters@, global_query@)
                        implies #[trigger] sel.contains(x) by {
                    if x == k {
                        assert(sel[old_sel.len() as int] == k);
                    } else {
                        assert(old_sel.contains(x));
                        let i = choose|i: int| 0 <= i < old_sel.len() && old_sel[i] == x;
                        assert(sel[i] == x);
                    }
                }
            }
        } else {
            proof {
                assert forall|x: usize|
                    x < k + 1 && row_selected(uris@[x as int], filters@, global_query@)
                        implies #[trigger] sel.contains(x) by {
                    if x == k {
                        assert(false);
                    }
                }
            }
        }
        k = k + 1;
    }
    let ghost before = rows@;
    let n_rows = rows.len();
    apply_sort(&mut rows, preferences);
    proof {
        let p = choose|p: Seq<usize>|
            {
                &&& is_permutation(p, before.len() as int)
                &&& sorted_stably(preferences.sort_rules@, resources(before), p)
                &&& rows@.len() == p.len()
                &&& forall|i: int|
                    0 <= i < p.len() ==> *rows@[i] == *before[#[trigger] p[i] as int]
            };
        let order = p.map_values(|i: usize| sel[i as int]);
        assert forall|i: int| 0 <= i < order.len() implies *rows@[i] == uris@[
            #[trigger] order[i] as int] by {
            assert(p[i] < sel.len());
            assert(*before[p[i] as int] == uris@[sel[p[i] as int] as int]);
        }
        assert forall|i: int, j: int|
            0 <= i < order.len() && 0 <= j < order.len() && i != j implies order[i]
            != order[j] by {
            assert(p[i] != p[j]);
            if p[i] < p[j] {
                assert(sel[p[i] as int] < sel[p[j] as int]);
            } else {
                assert(sel[p[j] as int] < sel[p[i] as int]);
            }
        }
        assert forall|i: int| 0 <= i < order.len() implies #[trigger] order[i] < uris@.len()
            && row_selected(uris@[order[i] as int], filters@, global_query@) by {
            assert(p[i] < sel.len());
            assert(sel[p[i] as int] < k);
        }
        assert forall|x: usize|
            x < uris@.len() && row_selected(uris@[x as int], filters@, global_query@)
                implies #[trigger] order.contains(x) by {
            assert(sel.contains(x));
            let m = choose|m: int| 0 <= m < sel.len() && sel[m] == x;
            assert(m < n_rows);
            assert(p.contains(m as usize));
            let i = choose|i: int| 0 <= i < p.len() && p[i] == m as usize;
            assert(order[i] == x);
        }
        assert forall|i: int, j: int| 0 <= i < j < order.len() implies {
            &&& row_order(
                preferences.sort_rules@,
                uris@[#[trigger] order[i] as int],
                uris@[#[trigger] order[j] as int],
            ) != Order::Greater
            &&& (row_order(
                preferences.sort_rules@,
                uris@[order[i] as int],
                uris@[order[j] as int],
            ) == Order::Equal ==> order[i] < order[j])
        } by {
            let pi = p[i];
            let pj = p[j];
            assert(resources(before)[pi as int] == uris@[order[i] as int]);
            assert(resources(before)[pj as int] == uris@[order[j] as int]);
            if pi < pj {
                assert(sel[pi as int] < sel[pj as int]);
            }
        }
        assert(sorted_selection(
            uris@,
            preferences.sort_rules@,
            filters@,
            global_query@,
            order,
        ));
    }
    rows
}


proof fn lemma_sorted_agree_upto(
    uris: Seq<Uri>,
    rules: Seq<SortRule>,
    filters: Seq<String>,
    query: Seq<char>,
    o1: Seq<usize>,
    o2: Seq<usize>,
    k: int,
)
    requires
        sorted_selection(uris, rules, filters, query, o1),
        sorted_selection(uris, rules, filters, query, o2),
        0 <= k <= o1.len(),
        k <= o2.len(),
    ensures
        forall|i: int| 0 <= i < k ==> o1[i] == o2[i],
    decreases k,
{
    if k > 0 {
        lemma_sorted_agree_upto(uris, rules, filters, query, o1, o2, k - 1);
        let c = k - 1;
        let x = o1[c];
        let y = o2[c];
        if x != y {
            assert(o2[c] < uris.len() && row_selected(uris[y as int], filters, query));
            assert(o1[c] < uris.len() && row_selected(uris[x as int], filters, query));
            assert(o1.contains(y));
            assert(o2.contains(x));
            let p = choose|p: int| 0 <= p < o1.len() && o1[p] == y;
            let q = choose|q: int| 0 <= q < o2.len() && o2[q] == x;
            if p < c {
                assert(o2[p] == y);
            }
            if q < c {
                assert(o1[q] == x);
            }
            assert(p > c);
            assert(q > c);
            lemma_row_order_flip(rules, uris[x as int], uris[y as int]);
            assert(row_order(rules, uris[o1[c] as int], uris[o1[p] as int]) != Order::Greater);
            assert(row_order(rules, uris[o2[c] as int], uris[o2[q] as int]) != Order::Greater);
        }
    }
}

/// There is exactly one stably sorted listing of the selected resources:
/// filtering and sorting is deterministic, ties included.
pub proof fn lemma_sorted_selection_unique(
    uris: Seq<Uri>,
    rules: Seq<SortRule>,
    filters: Seq<String>,
    query: Seq<char>,
    o1: Seq<usize>,
    o2: Seq<usize>,
)
    requires
        sorted_selection(uris, rules, filters, query, o1),
        sorted_selection(uris, rules, filters, query, o2),
    ensures
        o1 == o2,
{
    let n = if o1.len() < o2.len() {
        o1.len() as int
    } else {
        o2.len() as int
    };
    lemma_sorted_agree_upto(uris, rules, filters, query, o1, o2, n);
    if o1.len() < o2.len() {
        let y = o2[n];
        assert(o2[n] < uris.len() && row_selected(uris[y as int], filters, query));
        assert(o1.contains(y));
        let p = choose|p: int| 0 <= p < o1.len() && o1[p] == y;
        assert(o2[p] == y);
    } else if o2.len() < o1.len() {
        let x = o1[n];
        assert(o1[n] < uris.len() && row_selected(uris[x as int], filters, query));
        assert(o2.contains(x));
        let p = choose|p: int| 0 <= p < o2.len() && o2[p] == x;
        assert(o1[p] == x);
    }
    assert(o1 =~= o2);
}

// ---------------------------------------------------------------------------
// Pagination
// ---------------------------------------------------------------------------

/// Number of pages for `len` rows: at least one, even when there are none.
pub open spec fn page_count_of(len: int) -> int {
    if len == 0 {
        1
    } else {
        (len + PAGE_SIZE - 1) / (PAGE_SIZE as int)
    }
}

/// The page actually shown when `page` is requested: clamped to the last one.
pub open spec fn clamped_page(len: int, page: int) -> int {
    if page < page_count_of(len) - 1 {
        page
    } else {
        page_count_of(len) - 1
    }
}

/// First row of a page.
pub open spec fn page_start(len: int, page: int) -> int {
    clamped_page(len, page) * PAGE_SIZE
}

/// One past the last row of a page.
pub open spec fn page_end(len: int, page: int) -> int {
    if len < page_start(len, page) + PAGE_SIZE {
        len
    } else {
        page_start(len, page) + PAGE_SIZE
    }
}

/// Whatever page is requested, the page shown exists, lies within the rows,
/// holds at most `PAGE_SIZE` of them, and is never empty when rows exist.
pub proof fn lemma_page_bounds(len: int, page: int)
    requires
        0 <= len,
        0 <= page,
    ensures
        page_count_of(len) >= 1,
        len > 0 ==> page_end(len, page) > page_start(len, page),
        0 <= clamped_page(len, page) < page_count_of(len),
        0 <= page_start(len, page) <= page_end(len, page) <= len,
        len > 0 ==> page_start(len, page) < len,
        page_end(len, page) - page_start(len, page) <= PAGE_SIZE,
{
    let c = clamped_page(len, page);
    if len > 0 {
        assert(page_count_of(len) >= 1) by (nonlinear_arith)
            requires
                len > 0,
                page_count_of(len) == (len + 29) / 30,
        ;
        assert(c * 30 < len) by (nonlinear_arith)
            requires
                0 <= c < (len + 29) / 30,
        ;
    }
    assert(c * 30 >= 0) by (nonlinear_arith)
        requires
            c >= 0,
    ;
}

/// The rows of page `page`, with the page actually shown and the number of
/// pages. A page past the end is clamped to the last one.
pub fn page_rows<'a>(rows: &'a [&'a Uri], page: usize) -> (r: (usize, usize, &'a [&'a Uri]))
    ensures
        r.0 == clamped_page(rows@.len() as int, page as int),
        r.1 == page_count_of(rows@.len() as int),
        r.2@ == rows@.subrange(
            page_start(rows@.len() as int, page as int),
            page_end(rows@.len() as int, page as int),
        ),
{
    let len = rows.len();
    proof {
        lemma_page_bounds(len as int, page as int);
    }
    let page_count = if len == 0 {
        1
    } else {
        len / PAGE_SIZE + if len % PAGE_SIZE == 0 {
            0
        } else {
            1
        }
    };
    assert(page_count == page_count_of(len as int)) by (nonlinear_arith)
        requires
            page_count == (if len == 0 {
                1
            } else {
                len / 30 + if len % 30 == 0 {
                    0int
                } else {
                    1
                }
            }),
            page_count_of(len as int) == (if len == 0 {
                1
            } else {
                (len + 29) / 30
            }),
    ;
    let current = if page < page_count - 1 {
        page
    } else {
        page_count - 1
    };
    let start = current * PAGE_SIZE;
    let end = if len - start < PAGE_SIZE {
        len
    } else {
        start + PAGE_SIZE
    };
    (current, page_count, &rows[start..end])
}


/// The pages tile the rows: the first page starts at the first row, each
/// page ends where the next one starts, and the last page ends at the last
/// row.
pub proof fn lemma_pages_tile_rows(len: int, p: int)
    requires
        0 <= len,
        0 <= p < page_count_of(len) - 1,
    ensures
        page_start(len, 0) == 0,
        page_end(len, p) == page_start(len, p + 1),
        page_end(len, page_count_of(len) - 1) == len,
{
    let pc = page_count_of(len);
    assert(len > 0);
    assert(pc == (len + 29) / 30);
    assert(clamped_page(len, p) == p);
    assert(clamped_page(len, p + 1) == p + 1);
    assert((p + 1) * 30 < len) by (nonlinear_arith)
        requires
            0 <= p + 1 < pc,
            pc == (len + 29) / 30,
    ;
    assert(p * 30 + 30 == (p + 1) * 30) by (nonlinear_arith);
    assert(clamped_page(len, pc - 1) == pc - 1);
    assert(len <= (pc - 1) * 30 + 30) by (nonlinear_arith)
        requires
            pc == (len + 29) / 30,
            len > 0,
    ;
}

/// Without sort rules the listing keeps the resources in dataset order.
pub proof fn lemma_no_rules_keeps_dataset_order(
    uris: Seq<Uri>,
    filters: Seq<String>,
    query: Seq<char>,
    order: Seq<usize>,
)
    requires
        sorted_selection(uris, Seq::empty(), filters, query, order),
    ensures
        forall|i: int, j: int| 0 <= i < j < order.len() ==> order[i] < order[j],
{
    assert forall|i: int, j: int| 0 <= i < j < order.len() implies order[i] < order[j] by {
        assert(row_order(Seq::<SortRule>::empty(), uris[order[i] as int], uris[order[j] as int])
            == Order::Equal);
    }
}


} // verus!
