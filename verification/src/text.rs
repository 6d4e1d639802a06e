//! Text primitives over sequences of characters: lowercasing, whitespace
//! trimming, word splitting, substring search, joining and lexicographic
//! comparison.

use vstd::prelude::*;
use vstd::string::StringExecFns;
use vstd::string::StrSliceExecFns;

verus! {

/// The result of comparing two values: the first is smaller, both are equal,
/// or the first is larger.
#[derive(Clone, Copy, Debug, PartialEq, Eq, Structural)]
pub enum Order {
    Less,
    Equal,
    Greater,
}

/// The order seen from the other side.
pub open spec fn flipped(o: Order) -> Order {
    match o {
        Order::Less => Order::Greater,
        Order::Equal => Order::Equal,
        Order::Greater => Order::Less,
    }
}

// ---------------------------------------------------------------------------
// Character classes and case mapping
// ---------------------------------------------------------------------------

/// Whether a character carries the Unicode `White_Space` property, which
/// `char::is_whitespace` tests: tab through carriage return, space, next
/// line, no-break space, ogham space mark, the spaces from en quad to hair
/// space, line and paragraph separators, narrow no-break space, medium
/// mathematical space and ideographic space.
pub open spec fn whitespace(c: char) -> bool {
    let x = c as int;
    ||| 0x09 <= x <= 0x0D
    ||| x == 0x20
    ||| x == 0x85
    ||| x == 0xA0
    ||| x == 0x1680
    ||| 0x2000 <= x <= 0x200A
    ||| x == 0x2028
    ||| x == 0x2029
    ||| x == 0x202F
    ||| x == 0x205F
    ||| x == 0x3000
}

/// The full Unicode lowercase mapping of a string, as `str::to_lowercase`
/// computes it (context-sensitive for final sigma, possibly growing the text).
pub uninterp spec fn lowercase(s: Seq<char>) -> Seq<char>;

/// Whether a character has the Unicode `White_Space` property, as
/// `char::is_whitespace` answers.
pub fn is_whitespace(c: char) -> (r: bool)
    ensures
        r == whitespace(c),
{
    let x = c as u32;
    (0x09 <= x && x <= 0x0D) || x == 0x20 || x == 0x85 || x == 0xA0 || x == 0x1680 || (0x2000
        <= x && x <= 0x200A) || x == 0x2028 || x == 0x2029 || x == 0x202F || x == 0x205F || x
        == 0x3000
}

/// Calls `str::to_lowercase`; its result is named `lowercase`, a function of
/// the text alone. The one further fact stated is that the empty text
/// lowercases to the empty text (the result is built from the input's
/// characters, and there are none).
#[verifier::external_body]
pub(crate) fn to_lowercase(s: &str) -> (r: String)
    ensures
        r@ == lowercase(s@),
        s@.len() == 0 ==> r@.len() == 0,
{
    s.to_lowercase()
}

/// The characters of a text, in order.
pub fn chars_of(s: &str) -> (v: Vec<char>)
    ensures
        v@ == s@,
{
    let mut v: Vec<char> = Vec::new();
    for c in it: s.chars()
        invariant
            v@ == it.seq().take(it.index() as int),
    {
        v.push(c);
    }
    v
}

/// Whether two texts are the same.
pub fn same_text(a: &str, b: &str) -> (r: bool)
    ensures
        r == (a@ == b@),
{
    let x = chars_of(a);
    let y = chars_of(b);
    if x.len() != y.len() {
        return false;
    }
    let mut i: usize = 0;
    while i < x.len()
        invariant
            i <= x@.len(),
            x@.len() == y@.len(),
            x@ == a@,
            y@ == b@,
            forall|k: int| 0 <= k < i ==> x@[k] == y@[k],
        decreases x@.len() - i,
    {
        if x[i] != y[i] {
            return false;
        }
        i = i + 1;
    }
    assert(x@ =~= y@);
    true
}

// ---------------------------------------------------------------------------
// Substring search
// ---------------------------------------------------------------------------

/// `needle` occurs in `hay` starting at position `at`.
pub open spec fn occurs_at(needle: Seq<char>, hay: Seq<char>, at: int) -> bool {
    &&& 0 <= at
    &&& at + needle.len() <= hay.len()
    &&& hay.subrange(at, at + needle.len()) == needle
}

/// `needle` occurs somewhere in `hay` (the empty text occurs everywhere).
pub open spec fn contains_text(hay: Seq<char>, needle: Seq<char>) -> bool {
    exists|at: int| #[trigger] occurs_at(needle, hay, at)
}

/// Whether `needle` occurs in `hay`, as `str::contains` answers it.
pub fn find_text(hay: &Vec<char>, needle: &Vec<char>) -> (r: bool)
    ensures
        r == contains_text(hay@, needle@),
{
    let n = hay.len();
    let m = needle.len();
    if m > n {
        assert forall|at: int| !#[trigger] occurs_at(needle@, hay@, at) by {}
        return false;
    }
    let mut at: usize = 0;
    while at <= n - m
        invariant
            n == hay@.len(),
            m == needle@.len(),
            m <= n,
            at <= n - m + 1,
            forall|a: int| 0 <= a < at ==> !#[trigger] occurs_at(needle@, hay@, a),
        decreases n - m + 1 - at,
    {
        let mut k: usize = 0;
        let mut same = true;
        while k < m
            invariant
                n == hay@.len(),
                m == needle@.len(),
                at + m <= n,
                k <= m,
                same ==> forall|j: int| 0 <= j < k ==> hay@[at + j] == needle@[j],
                !same ==> exists|j: int| 0 <= j < m && hay@[at + j] != needle@[j],
            decreases m - k,
        {
            if hay[at + k] != needle[k] {
                same = false;
            }
            k = k + 1;
        }
        if same {
            assert(hay@.subrange(at as int, at + m) =~= needle@);
            assert(occurs_at(needle@, hay@, at as int));
            return true;
        }
        proof {
            let j = choose|j: int| 0 <= j < m && hay@[at + j] != needle@[j];
            assert(hay@.subrange(at as int, at + m)[j] != needle@[j]);
        }
        at = at + 1;
    }
    assert forall|a: int| !#[trigger] occurs_at(needle@, hay@, a) by {
        if 0 <= a && a + m <= n {
            assert(a < at);
        }
    }
    false
}

// ---------------------------------------------------------------------------
// Trimming and words
// ---------------------------------------------------------------------------

/// Number of whitespace characters at the front of `s`.
pub open spec fn leading_ws(s: Seq<char>) -> nat
    decreases s.len(),
{
    if s.len() > 0 && whitespace(s[0]) {
        1 + leading_ws(s.drop_first())
    } else {
        0
    }
}

/// Number of whitespace characters at the back of `s`.
pub open spec fn trailing_ws(s: Seq<char>) -> nat
    decreases s.len(),
{
    if s.len() > 0 && whitespace(s.last()) {
        1 + trailing_ws(s.drop_last())
    } else {
        0
    }
}

/// `s` without its leading and trailing whitespace, as `str::trim` gives it.
pub open spec fn trim(s: Seq<char>) -> Seq<char> {
    let rest = s.skip(leading_ws(s) as int);
    rest.take(rest.len() - trailing_ws(rest))
}

/// The text of `s` with surrounding whitespace removed.
pub fn trimmed(s: &str) -> (r: String)
    ensures
        r@ == trim(s@),
{
    let v = chars_of(s);
    let n = v.len();
    let mut a: usize = 0;
    assert(v@.skip(0) =~= v@);
    while a < n && is_whitespace(v[a])
        invariant
            n == v@.len(),
            a <= n,
            leading_ws(v@) == a + leading_ws(v@.skip(a as int)),
        decreases n - a,
    {
        assert(v@.skip(a as int).drop_first() =~= v@.skip(a + 1));
        a = a + 1;
    }
    assert(leading_ws(v@.skip(a as int)) == 0);
    let ghost rest = v@.skip(a as int);
    let mut b: usize = n;
    assert(rest.take(n - a) =~= rest);
    while b > a && is_whitespace(v[b - 1])
        invariant
            n == v@.len(),
            a <= b <= n,
            rest == v@.skip(a as int),
            trailing_ws(rest) == (n - b) + trailing_ws(rest.take(b - a)),
        decreases b - a,
    {
        assert(rest.take(b - a).drop_last() =~= rest.take(b - 1 - a));
        assert(rest.take(b - a).last() == v@[b - 1]);
        b = b - 1;
    }
    assert(trailing_ws(rest.take(b - a)) == 0);
    let r = s.substring_char(a, b);
    assert(r@ =~= trim(s@));
    String::from_str(r)
}

/// Positions `i..j` of `s` hold a word: a maximal run of non-whitespace
/// characters, as `str::split_whitespace` yields them.
pub open spec fn is_word(s: Seq<char>, i: int, j: int) -> bool {
    &&& 0 <= i < j <= s.len()
    &&& forall|k: int| i <= k < j ==> !whitespace(#[trigger] s[k])
    &&& (i == 0 || whitespace(s[i - 1]))
    &&& (j == s.len() || whitespace(s[j]))
}

/// Every word of `s` occurs in `hay`.
pub open spec fn all_words_in(s: Seq<char>, hay: Seq<char>) -> bool {
    forall|i: int, j: int| #[trigger] is_word(s, i, j) ==> contains_text(hay, s.subrange(i, j))
}

/// Whether every whitespace-separated word of `s` occurs in `hay`.
pub fn every_word_occurs(s: &Vec<char>, hay: &Vec<char>) -> (r: bool)
    ensures
        r == all_words_in(s@, hay@),
{
    let n = s.len();
    let mut i: usize = 0;
    while i < n
        invariant
            n == s@.len(),
            i <= n,
            i == 0 || i == n || whitespace(s@[i as int]),
            forall|a: int, b: int|
                #[trigger] is_word(s@, a, b) && b <= i ==> contains_text(hay@, s@.subrange(a, b)),
        decreases n - i,
    {
        let i0 = i;
        while i < n && is_whitespace(s[i])
            invariant
                n == s@.len(),
                i0 <= i <= n,
                forall|k: int| i0 <= k < i ==> whitespace(#[trigger] s@[k]),
            decreases n - i,
        {
            i = i + 1;
        }
        if i == n {
            assert forall|a: int, b: int| #[trigger] is_word(s@, a, b) implies contains_text(
                hay@,
                s@.subrange(a, b),
            ) by {
                if b > i0 {
                    if a < i0 {
                        assert(!whitespace(s@[i0 as int]));
                    } else {
                        assert(!whitespace(s@[a]));
                    }
                }
            }
            return true;
        }
        let start = i;
        let mut word: Vec<char> = Vec::new();
        while i < n && !is_whitespace(s[i])
            invariant
                n == s@.len(),
                start <= i <= n,
                word@ == s@.subrange(start as int, i as int),
                forall|k: int| start <= k < i ==> !whitespace(#[trigger] s@[k]),
            decreases n - i,
        {
            word.push(s[i]);
            assert(word@ =~= s@.subrange(start as int, i + 1));
            i = i + 1;
        }
        assert(start == 0 || whitespace(s@[start - 1])) by {
            if start > i0 {
                assert(whitespace(s@[start - 1]));
            } else if start > 0 {
                assert(start == i0);
            }
        }
        assert(is_word(s@, start as int, i as int));
        if !find_text(hay, &word) {
            assert(!contains_text(hay@, s@.subrange(start as int, i as int)));
            return false;
        }
        assert forall|a: int, b: int|
            #[trigger] is_word(s@, a, b) && b <= i implies contains_text(
            hay@,
            s@.subrange(a, b),
        ) by {
            if b > i0 {
                if a < i0 {
                    assert(!whitespace(s@[i0 as int]));
                } else if a < start {
                    assert(!whitespace(s@[a]));
                } else if a > start {
                    assert(!whitespace(s@[a - 1]));
                } else if b < i {
                    assert(!whitespace(s@[b]));
                }
            }
        }
    }
    true
}

// ---------------------------------------------------------------------------
// Joining
// ---------------------------------------------------------------------------

/// `parts` concatenated with `sep` between neighbours, as `[String]::join`
/// builds it.
pub open spec fn join(parts: Seq<Seq<char>>, sep: Seq<char>) -> Seq<char>
    decreases parts.len(),
{
    if parts.len() == 0 {
        Seq::empty()
    } else if parts.len() == 1 {
        parts[0]
    } else {
        join(parts.drop_last(), sep) + sep + parts.last()
    }
}

/// The texts of a list of strings.
pub open spec fn texts(parts: Seq<String>) -> Seq<Seq<char>> {
    parts.map_values(|p: String| p@)
}

/// `parts` joined by `sep`.
pub fn join_strings(parts: &Vec<String>, sep: &str) -> (r: String)
    ensures
        r@ == join(texts(parts@), sep@),
{
    let mut r = String::new();
    let mut i: usize = 0;
    while i < parts.len()
        invariant
            i <= parts@.len(),
            r@ == join(texts(parts@).take(i as int), sep@),
        decreases parts@.len() - i,
    {
        assert(texts(parts@).take(i + 1).drop_last() =~= texts(parts@).take(i as int));
        if i != 0 {
            r.append(sep);
        } else {
            assert(texts(parts@).take(1) =~= seq![parts@[0]@]);
        }
        r.append(parts[i].as_str());
        i = i + 1;
    }
    assert(texts(parts@).take(parts@.len() as int) =~= texts(parts@));
    r
}

// ---------------------------------------------------------------------------
// Lexicographic order
// ---------------------------------------------------------------------------

/// Lexicographic order of two texts by code point, which is how `String`
/// orders its values (UTF-8 preserves code point order).
pub open spec fn lex_order(a: Seq<char>, b: Seq<char>) -> Order
    decreases a.len(),
{
    if a.len() == 0 {
        if b.len() == 0 {
            Order::Equal
        } else {
            Order::Less
        }
    } else if b.len() == 0 {
        Order::Greater
    } else if a[0] < b[0] {
        Order::Less
    } else if a[0] > b[0] {
        Order::Greater
    } else {
        lex_order(a.drop_first(), b.drop_first())
    }
}

/// Two texts compare equal exactly when they are the same text.
pub proof fn lemma_lex_equal(a: Seq<char>, b: Seq<char>)
    ensures
        (lex_order(a, b) == Order::Equal) <==> (a == b),
    decreases a.len(),
{
    if a.len() == 0 && b.len() == 0 {
        assert(a =~= b);
    } else if a.len() > 0 && b.len() > 0 && a[0] == b[0] {
        lemma_lex_equal(a.drop_first(), b.drop_first());
        if a.drop_first() == b.drop_first() {
            assert(a =~= seq![a[0]] + a.drop_first());
            assert(b =~= seq![b[0]] + b.drop_first());
        }
    } else if a.len() > 0 && b.len() > 0 {
        assert(a[0] != b[0]);
        assert(a != b);
    } else {
        assert(a.len() != b.len());
    }
}

/// Swapping the texts flips their order.
pub proof fn lemma_lex_flip(a: Seq<char>, b: Seq<char>)
    ensures
        lex_order(b, a) == flipped(lex_order(a, b)),
    decreases a.len(),
{
    if a.len() > 0 && b.len() > 0 {
        lemma_lex_flip(a.drop_first(), b.drop_first());
    }
}

/// The lexicographic order is transitive.
pub proof fn lemma_lex_transitive(a: Seq<char>, b: Seq<char>, c: Seq<char>)
    ensures
        lex_order(a, b) == Order::Less && lex_order(b, c) == Order::Less ==> lex_order(a, c)
            == Order::Less,
        lex_order(a, b) == Order::Greater && lex_order(b, c) == Order::Greater ==> lex_order(
            a,
            c,
        ) == Order::Greater,
    decreases a.len(),
{
    if a.len() > 0 && b.len() > 0 && c.len() > 0 {
        lemma_lex_transitive(a.drop_first(), b.drop_first(), c.drop_first());
    }
}

/// Compares two texts lexicographically.
pub fn compare_text(a: &Vec<char>, b: &Vec<char>) -> (r: Order)
    ensures
        r == lex_order(a@, b@),
{
    let mut i: usize = 0;
    assert(a@.skip(0) =~= a@);
    assert(b@.skip(0) =~= b@);
    while i < a.len() && i < b.len()
        invariant
            i <= a@.len(),
            i <= b@.len(),
            lex_order(a@, b@) == lex_order(a@.skip(i as int), b@.skip(i as int)),
        decreases a@.len() - i,
    {
        let x = a[i];
        let y = b[i];
        if x < y {
            return Order::Less;
        } else if x > y {
            return Order::Greater;
        }
        assert(a@.skip(i as int).drop_first() =~= a@.skip(i + 1));
        assert(b@.skip(i as int).drop_first() =~= b@.skip(i + 1));
        i = i + 1;
    }
    if i < a.len() {
        Order::Greater
    } else if i < b.len() {
        Order::Less
    } else {
        Order::Equal
    }
}

// ---------------------------------------------------------------------------
// Decimal numerals
// ---------------------------------------------------------------------------

/// The numeral of a single decimal digit.
pub open spec fn digit_text(d: nat) -> Seq<char> {
    if d == 0 {
        "0"@
    } else if d == 1 {
        "1"@
    } else if d == 2 {
        "2"@
    } else if d == 3 {
        "3"@
    } else if d == 4 {
        "4"@
    } else if d == 5 {
        "5"@
    } else if d == 6 {
        "6"@
    } else if d == 7 {
        "7"@
    } else if d == 8 {
        "8"@
    } else {
        "9"@
    }
}

/// The decimal numeral of `n`, without leading zeros, as `{}` formats an
/// unsigned integer.
pub open spec fn decimal(n: nat) -> Seq<char>
    decreases n,
{
    if n < 10 {
        digit_text(n)
    } else {
        decimal(n / 10) + digit_text(n % 10)
    }
}

fn digit_str(d: usize) -> (r: &'static str)
    requires
        d < 10,
    ensures
        r@ == digit_text(d as nat),
{
    if d == 0 {
        "0"
    } else if d == 1 {
        "1"
    } else if d == 2 {
        "2"
    } else if d == 3 {
        "3"
    } else if d == 4 {
        "4"
    } else if d == 5 {
        "5"
    } else if d == 6 {
        "6"
    } else if d == 7 {
        "7"
    } else if d == 8 {
        "8"
    } else {
        "9"
    }
}

/// Append the decimal numeral of `n` to `s`.
pub fn append_decimal(s: &mut String, n: usize)
    ensures
        final(s)@ == old(s)@ + decimal(n as nat),
    decreases n,
{
    if n >= 10 {
        append_decimal(s, n / 10);
    }
    let ghost before = s@;
    s.append(digit_str(n % 10));
    proof {
        if n >= 10 {
            assert(s@ =~= old(s)@ + (decimal((n / 10) as nat) + digit_text((n % 10) as nat)));
        } else {
            assert(n % 10 == n);
        }
    }
}

} // verus!
