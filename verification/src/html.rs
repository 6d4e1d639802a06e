//! Element tags, attributes and event kinds of the HTML tree, with their DOM
//! names.

use vstd::prelude::*;

use crate::text::{chars_of, same_text};

verus! {

/// A single kind of browser event, as exposed by the builder.
#[derive(Debug, Clone, Copy, PartialEq, Eq, Structural)]
pub enum Event {
    Click,
    Input,
    Change,
    Submit,
    KeyUp,
}

/// DOM name of an event kind.
pub open spec fn event_dom_name(ev: Event) -> Seq<char> {
    match ev {
        Event::Click => "click"@,
        Event::Input => "input"@,
        Event::Change => "change"@,
        Event::Submit => "submit"@,
        Event::KeyUp => "keyup"@,
    }
}

/// Name of the DOM event for a builder [`Event`].
pub fn event_name(ev: Event) -> (r: &'static str)
    ensures
        r@ == event_dom_name(ev),
{
    match ev {
        Event::Click => "click",
        Event::Input => "input",
        Event::Change => "change",
        Event::Submit => "submit",
        Event::KeyUp => "keyup",
    }
}

/// An HTML attribute: a static name plus an owned value.
#[derive(Debug, Clone)]
pub struct Attr {
    pub name: &'static str,
    pub value: String,
}

impl Attr {
    /// An attribute with the given name and value.
    pub fn new(name: &'static str, value: String) -> (r: Self)
        ensures
            r.name@ == name@,
            r.value@ == value@,
    {
        Attr { name, value }
    }
}

/// The set of supported element tags. Deliberately short.
#[derive(Debug, Clone, Copy, PartialEq, Eq, Structural)]
pub enum Tag {
    Div,
    Span,
    P,
    H1,
    H2,
    H3,
    Button,
    Input,
    Label,
    TextArea,
    Ul,
    Li,
    Section,
    Select,
    Option,
    Output,
    Pre,
    Form,
    Iframe,
    Nav,
}

/// DOM name of a tag (lowercase).
pub open spec fn tag_dom_name(t: Tag) -> Seq<char> {
    match t {
        Tag::Div => "div"@,
        Tag::Span => "span"@,
        Tag::P => "p"@,
        Tag::H1 => "h1"@,
        Tag::H2 => "h2"@,
        Tag::H3 => "h3"@,
        Tag::Button => "button"@,
        Tag::Input => "input"@,
        Tag::Label => "label"@,
        Tag::TextArea => "textarea"@,
        Tag::Ul => "ul"@,
        Tag::Li => "li"@,
        Tag::Section => "section"@,
        Tag::Select => "select"@,
        Tag::Option => "option"@,
        Tag::Output => "output"@,
        Tag::Pre => "pre"@,
        Tag::Form => "form"@,
        Tag::Iframe => "iframe"@,
        Tag::Nav => "nav"@,
    }
}

/// A character with ASCII uppercase letters mapped to lowercase.
pub open spec fn ascii_folded(c: char) -> int {
    if 'A' <= c && c <= 'Z' {
        c as int + 32
    } else {
        c as int
    }
}

/// Two texts are equal when ASCII letter case is ignored, as
/// `str::eq_ignore_ascii_case` decides.
pub open spec fn equal_ignoring_ascii_case(a: Seq<char>, b: Seq<char>) -> bool {
    a.len() == b.len() && forall|i: int| 0 <= i < a.len() ==> ascii_folded(a[i]) == ascii_folded(b[i])
}

fn fold(c: char) -> (r: u32)
    ensures
        r == ascii_folded(c),
{
    let x = c as u32;
    if 'A' <= c && c <= 'Z' {
        x + 32
    } else {
        x
    }
}

impl Tag {
    /// DOM name of the tag (lowercase).
    pub fn name(self) -> (r: &'static str)
        ensures
            r@ == tag_dom_name(self),
    {
        match self {
            Tag::Div => "div",
            Tag::Span => "span",
            Tag::P => "p",
            Tag::H1 => "h1",
            Tag::H2 => "h2",
            Tag::H3 => "h3",
            Tag::Button => "button",
            Tag::Input => "input",
            Tag::Label => "label",
            Tag::TextArea => "textarea",
            Tag::Ul => "ul",
            Tag::Li => "li",
            Tag::Section => "section",
            Tag::Select => "select",
            Tag::Option => "option",
            Tag::Output => "output",
            Tag::Pre => "pre",
            Tag::Form => "form",
            Tag::Iframe => "iframe",
            Tag::Nav => "nav",
        }
    }

    /// Whether a live element's tag name (browsers report it uppercase)
    /// names this tag, ignoring ASCII case.
    pub fn matches_tag_name(self, dom_tag_name: &str) -> (r: bool)
        ensures
            r == equal_ignoring_ascii_case(tag_dom_name(self), dom_tag_name@),
    {
        let a = chars_of(self.name());
        let b = chars_of(dom_tag_name);
        if a.len() != b.len() {
            return false;
        }
        let mut i: usize = 0;
        while i < a.len()
            invariant
                i <= a@.len(),
                a@.len() == b@.len(),
                a@ == tag_dom_name(self),
                b@ == dom_tag_name@,
                forall|k: int| 0 <= k < i ==> ascii_folded(a@[k]) == ascii_folded(b@[k]),
            decreases a@.len() - i,
        {
            if fold(a[i]) != fold(b[i]) {
                return false;
            }
            i = i + 1;
        }
        true
    }
}

// ---------------------------------------------------------------------------
// Event routing
// ---------------------------------------------------------------------------

/// The handlers of row `r` (whose handlers are bound to `events`, in the
/// order they were attached) that an event named `event_type` fires, as
/// (row, position) pairs in attachment order.
pub open spec fn row_hits(r: usize, events: Seq<Event>, event_type: Seq<char>) -> Seq<(usize, usize)>
    decreases events.len(),
{
    if events.len() == 0 {
        Seq::empty()
    } else {
        let rest = row_hits(r, events.drop_last(), event_type);
        if event_dom_name(events.last()) == event_type {
            rest.push((r, (events.len() - 1) as usize))
        } else {
            rest
        }
    }
}

/// The handlers an event fires as it bubbles along `path` (the handler row
/// of each element from the target up to the mount, if it has one): every
/// handler bound to the event's kind, element by element, in bubbling order.
pub open spec fn fired(path: Seq<Option<usize>>, rows: Seq<Seq<Event>>, event_type: Seq<char>) -> Seq<
    (usize, usize),
>
    decreases path.len(),
{
    if path.len() == 0 {
        Seq::empty()
    } else {
        let before = fired(path.drop_last(), rows, event_type);
        match path.last() {
            Some(r) => if r < rows.len() {
                before + row_hits(r, rows[r as int], event_type)
            } else {
                before
            },
            None => before,
        }
    }
}

/// What `row_hits` picks out of one row: handlers of that row bound to the
/// event's kind, and every one of them.
proof fn lemma_row_hits(r: usize, events: Seq<Event>, event_type: Seq<char>)
    requires
        events.len() <= usize::MAX,
    ensures
        forall|k: int|
            0 <= k < row_hits(r, events, event_type).len() ==> {
                let hit = #[trigger] row_hits(r, events, event_type)[k];
                &&& hit.0 == r
                &&& hit.1 < events.len()
                &&& event_dom_name(events[hit.1 as int]) == event_type
            },
        forall|j: int|
            0 <= j < events.len() && event_dom_name(#[trigger] events[j]) == event_type
                ==> row_hits(r, events, event_type).contains((r, j as usize)),
    decreases events.len(),
{
    if events.len() > 0 {
        let init = events.drop_last();
        lemma_row_hits(r, init, event_type);
        let rest = row_hits(r, init, event_type);
        let hits = row_hits(r, events, event_type);
        assert forall|k: int| 0 <= k < hits.len() implies {
            let hit = #[trigger] hits[k];
            &&& hit.0 == r
            &&& hit.1 < events.len()
            &&& event_dom_name(events[hit.1 as int]) == event_type
        } by {
            if k < rest.len() {
                assert(hits[k] == rest[k]);
                assert(events[rest[k].1 as int] == init[rest[k].1 as int]);
            } else {
                assert(event_dom_name(events.last()) == event_type);
                assert(hits == rest.push((r, (events.len() - 1) as usize)));
                assert(hits[k] == (r, (events.len() - 1) as usize));
            }
        }
        assert forall|j: int|
            0 <= j < events.len() && event_dom_name(#[trigger] events[j]) == event_type implies hits.contains(
            (r, j as usize),
        ) by {
            if j < init.len() {
                assert(init[j] == events[j]);
                let k = choose|k: int| 0 <= k < rest.len() && rest[k] == (r, j as usize);
                assert(hits[k] == rest[k]);
            } else {
                assert(hits[hits.len() - 1] == (r, j as usize));
            }
        }
    }
}

/// An event fires exactly the handlers bound to its own kind on the elements
/// it bubbles through: every handler fired sits on a row of an element of
/// the path and is bound to the event's kind, and every handler so bound on
/// such a row is fired. (Each row is the view of a `Vec`, so its length fits
/// in a `usize`.)
pub proof fn lemma_fired_handlers_match_event(
    path: Seq<Option<usize>>,
    rows: Seq<Seq<Event>>,
    event_type: Seq<char>,
)
    requires
        forall|r: int| 0 <= r < rows.len() ==> #[trigger] rows[r].len() <= usize::MAX,
    ensures
        forall|k: int|
            0 <= k < fired(path, rows, event_type).len() ==> {
                let hit = #[trigger] fired(path, rows, event_type)[k];
                &&& hit.0 < rows.len()
                &&& hit.1 < rows[hit.0 as int].len()
                &&& event_dom_name(rows[hit.0 as int][hit.1 as int]) == event_type
                &&& path.contains(Some(hit.0))
            },
        forall|i: int, r: usize, j: int|
            #![trigger path[i], rows[r as int][j]]
            0 <= i < path.len() && path[i] == Some(r) && r < rows.len() && 0 <= j < rows[
                r as int
            ].len() && event_dom_name(rows[r as int][j]) == event_type ==> fired(
                path,
                rows,
                event_type,
            ).contains((r, j as usize)),
    decreases path.len(),
{
    if path.len() > 0 {
        let init = path.drop_last();
        lemma_fired_handlers_match_event(init, rows, event_type);
        let before = fired(init, rows, event_type);
        let all = fired(path, rows, event_type);
        assert forall|k: int| 0 <= k < all.len() implies {
            let hit = #[trigger] all[k];
            &&& hit.0 < rows.len()
            &&& hit.1 < rows[hit.0 as int].len()
            &&& event_dom_name(rows[hit.0 as int][hit.1 as int]) == event_type
            &&& path.contains(Some(hit.0))
        } by {
            if k < before.len() {
                assert(all[k] == before[k]);
                let i = choose|i: int| 0 <= i < init.len() && init[i] == Some(before[k].0);
                assert(path[i] == init[i]);
            } else {
                match path.last() {
                    Some(r) => {
                        lemma_row_hits(r, rows[r as int], event_type);
                        let hits = row_hits(r, rows[r as int], event_type);
                        assert(all[k] == hits[k - before.len()]);
                        assert(path[path.len() - 1] == Some(r));
                    },
                    None => {},
                }
            }
        }
        assert forall|i: int, r: usize, j: int|
            0 <= i < path.len() && path[i] == Some(r) && r < rows.len() && 0 <= j < rows[
                r as int
            ].len() && event_dom_name(rows[r as int][j]) == event_type implies all.contains(
            (r, j as usize),
        ) by {
            if i < init.len() {
                assert(init[i] == path[i]);
                assert(before.contains((r, j as usize)));
                let k = choose|k: int| 0 <= k < before.len() && before[k] == (r, j as usize);
                assert(all[k] == before[k]);
            } else {
                assert(path.last() == Some(r));
                lemma_row_hits(r, rows[r as int], event_type);
                let hits = row_hits(r, rows[r as int], event_type);
                assert(hits.contains((r, j as usize)));
                let k = choose|k: int| 0 <= k < hits.len() && hits[k] == (r, j as usize);
                assert(all == before + hits);
                assert(all[before.len() + k] == hits[k]);
            }
        }
    }
}

/// The event kinds of each handler row.
pub open spec fn event_rows(rows: Seq<Vec<Event>>) -> Seq<Seq<Event>> {
    rows.map_values(|v: Vec<Event>| v@)
}

/// The armed handlers an event named `event_type` fires while it bubbles
/// along `path`, in the order they are called.
pub fn handlers_to_fire(path: &Vec<Option<usize>>, rows: &Vec<Vec<Event>>, event_type: &str) -> (r: Vec<
    (usize, usize),
>)
    ensures
        r@ == fired(path@, event_rows(rows@), event_type@),
{
    let mut r: Vec<(usize, usize)> = Vec::new();
    let mut i: usize = 0;
    while i < path.len()
        invariant
            i <= path@.len(),
            r@ == fired(path@.take(i as int), event_rows(rows@), event_type@),
        decreases path@.len() - i,
    {
        assert(path@.take(i + 1).drop_last() =~= path@.take(i as int));
        assert(path@.take(i + 1).last() == path@[i as int]);
        match path[i] {
            Some(row) => {
                if row < rows.len() {
                    let events = &rows[row];
                    assert(event_rows(rows@)[row as int] == events@);
                    let mut j: usize = 0;
                    let ghost start = r@;
                    while j < events.len()
                        invariant
                            j <= events@.len(),
                            r@ == start + row_hits(row, events@.take(j as int), event_type@),
                        decreases events@.len() - j,
                    {
                        assert(events@.take(j + 1).drop_last() =~= events@.take(j as int));
                        assert(events@.take(j + 1).last() == events@[j as int]);
                        if same_text(event_name(events[j]), event_type) {
                            r.push((row, j));
                            assert(r@ =~= start + row_hits(row, events@.take(j + 1), event_type@));
                        }
                        j = j + 1;
                    }
                    assert(events@.take(events@.len() as int) =~= events@);
                }
            },
            None => {},
        }
        i = i + 1;
    }
    assert(path@.take(path@.len() as int) =~= path@);
    r
}

} // verus!
